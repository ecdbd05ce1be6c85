//! CRC-32C (Castagnoli), table driven.

use vstd::prelude::*;

verus! {

/// One bit step of the reflected CRC-32C division.
pub open spec fn crc_bit(c: u32) -> u32 {
    if c & 1 != 0 {
        (c >> 1u32) ^ 0x82F6_3B78u32
    } else {
        c >> 1u32
    }
}

/// `k` bit steps starting from `c`.
pub open spec fn crc_bits(c: u32, k: nat) -> u32
    decreases k,
{
    if k == 0 {
        c
    } else {
        crc_bit(crc_bits(c, (k - 1) as nat))
    }
}

/// Entry `i` of the CRC-32C lookup table.
pub open spec fn crc_table_entry(i: u32) -> u32 {
    crc_bits(i, 8)
}

/// The CRC-32C register after the first `n` bytes of `data`.
pub open spec fn crc_acc(data: Seq<u8>, n: int) -> u32
    decreases n,
{
    if n <= 0 {
        0xFFFF_FFFFu32
    } else {
        let c = crc_acc(data, n - 1);
        (c >> 8u32) ^ crc_table_entry((c ^ (data[n - 1] as u32)) & 0xFFu32)
    }
}

/// CRC-32C of `data`.
pub open spec fn crc32c_spec(data: Seq<u8>) -> u32 {
    crc_acc(data, data.len() as int) ^ 0xFFFF_FFFFu32
}

/// Builds the CRC-32C lookup table.
pub fn crc32c_table() -> (t: Vec<u32>)
    ensures
        t@.len() == 256,
        forall|i: int| 0 <= i < 256 ==> #[trigger] t@[i] == crc_table_entry(i as u32),
{
    let mut table: Vec<u32> = Vec::new();
    let mut i: u32 = 0;
    while i < 256
        invariant
            i <= 256,
            table@.len() == i,
            forall|j: int| 0 <= j < i ==> #[trigger] table@[j] == crc_table_entry(j as u32),
        decreases 256 - i,
    {
        let mut crc = i;
        let mut k: u32 = 0;
        while k < 8
            invariant
                k <= 8,
                crc == crc_bits(i, k as nat),
            decreases 8 - k,
        {
            if crc & 1 != 0 {
                crc = (crc >> 1u32) ^ 0x82F6_3B78u32;
            } else {
                crc = crc >> 1u32;
            }
            k = k + 1;
        }
        table.push(crc);
        i = i + 1;
    }
    table
}

/// Computes the CRC-32C of a byte slice.
pub fn crc32c(data: &[u8]) -> (r: u32)
    ensures
        r == crc32c_spec(data@),
{
    let table = crc32c_table();
    let mut crc: u32 = 0xFFFF_FFFFu32;
    let mut i: usize = 0;
    while i < data.len()
        invariant
            i <= data.len(),
            table@.len() == 256,
            forall|j: int| 0 <= j < 256 ==> #[trigger] table@[j] == crc_table_entry(j as u32),
            crc == crc_acc(data@, i as int),
        decreases data.len() - i,
    {
        let b = data[i];
        let x = crc ^ (b as u32);
        let idx = x & 0xFFu32;
        assert(idx < 256) by (bit_vector)
            requires
                idx == x & 0xFFu32,
        ;
        crc = (crc >> 8u32) ^ table[idx as usize];
        i = i + 1;
    }
    crc ^ 0xFFFF_FFFFu32
}

} // verus!

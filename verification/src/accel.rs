//! Hardware acceleration dispatch for entropy coding.
//!
//! A software accelerator (zstd) is always available; the hardware backends
//! (Intel QAT and IAA, AMD Xilinx FPGA, GPU compute, ARM SVE2) are stubs that
//! report themselves unavailable. Selection picks the requested backend when
//! it was detected, else the highest-priority detected hardware, else software.

use vstd::prelude::*;
use crate::error::CpacError;

verus! {

/// Hardware acceleration backends.
#[derive(Clone, Copy, Debug, PartialEq, Eq, Structural, Hash)]
pub enum AccelBackend {
    /// Software codecs on the CPU.
    Software,
    /// Intel QuickAssist Technology.
    IntelQat,
    /// Intel In-Memory Analytics Accelerator.
    IntelIaa,
    /// AMD Xilinx Alveo FPGA.
    AmdXilinx,
    /// GPU compute.
    GpuCompute,
    /// ARM SVE2 vector extension.
    ArmSve2,
}

/// Entropy coding backends.
#[derive(Clone, Copy, Debug, PartialEq, Eq, Structural, Hash)]
pub enum Backend {
    Raw,
    Zstd,
    Brotli,
    Gzip,
    Lzma,
    Xz,
    Lz4,
    Snappy,
    Lzham,
    Lizard,
    ZlibNg,
    OpenZl,
}

/// The frame `zstd::bulk::compress` produces for `data` at `level`, or
/// `None` when zstd refuses to compress it.
pub uninterp spec fn zstd_frame_of(data: Seq<u8>, level: i32) -> Option<Seq<u8>>;

/// What `zstd::bulk::decompress` gives back for `frame` within `capacity`
/// bytes, or `None` when it refuses the frame.
pub uninterp spec fn zstd_unframe_of(frame: Seq<u8>, capacity: usize) -> Option<Seq<u8>>;

/// Compresses one zstd frame.
///
/// Calls `zstd::bulk::compress`, whose outcome depends on the data and the
/// level alone and is named by `zstd_frame_of`. Decompressing the frame with
/// any capacity of at least the input's length gives the input back (zstd is
/// lossless). When zstd fails, the error's text comes back; the text is not
/// stated.
#[verifier::external_body]
fn zstd_bulk_compress(data: &[u8], level: i32) -> (r: Result<Vec<u8>, String>)
    ensures
        r is Ok <==> zstd_frame_of(data@, level) is Some,
        r matches Ok(c) ==> {
            &&& zstd_frame_of(data@, level) == Some(c@)
            &&& forall|cap: usize| cap >= data@.len() ==> #[trigger] zstd_unframe_of(c@, cap) == Some(data@)
        },
{
    match zstd::bulk::compress(data, level) {
        Ok(c) => Ok(c),
        Err(e) => Err(format!("software zstd: {e}")),
    }
}

/// Decompresses one zstd frame of at most `max_size` bytes.
///
/// Calls `zstd::bulk::decompress`; the outcome is the one named by
/// `zstd_unframe_of`. The error's text is not stated. The call reserves up
/// to `max_size` bytes up front, which panics beyond `isize::MAX`.
#[verifier::external_body]
fn zstd_bulk_decompress(data: &[u8], max_size: usize) -> (r: Result<Vec<u8>, String>)
    requires
        max_size <= isize::MAX,
    ensures
        match r {
            Ok(d) => zstd_unframe_of(data@, max_size) == Some(d@),
            Err(_) => zstd_unframe_of(data@, max_size) is None,
        },
{
    match zstd::bulk::decompress(data, max_size) {
        Ok(d) => Ok(d),
        Err(e) => Err(format!("software zstd: {e}")),
    }
}

/// Hardware-accelerated entropy coding behind one interface.
pub trait HardwareAccelerator {
    /// Human-readable name.
    fn name(&self) -> &str;

    /// The backend category of this accelerator.
    fn backend(&self) -> AccelBackend;

    /// Whether the accelerator can be used on this host.
    fn is_available(&self) -> bool;

    /// Compresses `data` at `level`.
    fn compress(&self, data: &[u8], level: i32) -> Result<Vec<u8>, CpacError>;

    /// Decompresses `data`, expecting at most `max_size` bytes (at most
    /// `isize::MAX`, the most a buffer can reserve).
    fn decompress(&self, data: &[u8], max_size: usize) -> (r: Result<Vec<u8>, CpacError>)
        requires
            max_size <= isize::MAX,
    ;

    /// Whether the accelerator supports an entropy backend.
    fn supports_backend(&self, backend: Backend) -> bool;
}

/// Software-only accelerator: zstd on the CPU, always available.
pub struct SoftwareAccelerator;

impl HardwareAccelerator for SoftwareAccelerator {
    fn name(&self) -> (r: &str)
        ensures
            r@ == "software"@,
    {
        "software"
    }

    fn backend(&self) -> (r: AccelBackend)
        ensures
            r == AccelBackend::Software,
    {
        AccelBackend::Software
    }

    fn is_available(&self) -> (r: bool)
        ensures
            r,
    {
        true
    }

    /// Compresses with zstd at `level`; a zstd failure is `CompressFailed`.
    fn compress(&self, data: &[u8], level: i32) -> (r: Result<Vec<u8>, CpacError>)
        ensures
            r is Ok <==> zstd_frame_of(data@, level) is Some,
            r matches Ok(c) ==> {
                &&& zstd_frame_of(data@, level) == Some(c@)
                &&& forall|cap: usize| cap >= data@.len() ==> #[trigger] zstd_unframe_of(c@, cap) == Some(data@)
            },
            r matches Err(e) ==> e is CompressFailed,
    {
        match zstd_bulk_compress(data, level) {
            Ok(c) => Ok(c),
            Err(msg) => Err(CpacError::CompressFailed(msg)),
        }
    }

    /// Decompresses a zstd frame; a zstd failure is `DecompressFailed`.
    fn decompress(&self, data: &[u8], max_size: usize) -> (r: Result<Vec<u8>, CpacError>)
        ensures
            match r {
                Ok(d) => zstd_unframe_of(data@, max_size) == Some(d@),
                Err(e) => zstd_unframe_of(data@, max_size) is None && e is DecompressFailed,
            },
    {
        match zstd_bulk_decompress(data, max_size) {
            Ok(d) => Ok(d),
            Err(msg) => Err(CpacError::DecompressFailed(msg)),
        }
    }

    fn supports_backend(&self, backend: Backend) -> (r: bool)
        ensures
            r,
    {
        true
    }
}

/// The entropy backends the hardware stubs claim: zstd and gzip.
pub open spec fn stub_supports(backend: Backend) -> bool {
    backend == Backend::Zstd || backend == Backend::Gzip
}

fn stub_supports_backend(backend: Backend) -> (r: bool)
    ensures
        r == stub_supports(backend),
{
    match backend {
        Backend::Zstd | Backend::Gzip => true,
        _ => false,
    }
}

/// The error a hardware stub answers every request with.
fn unavailable(display: &str) -> (r: CpacError)
    ensures
        r matches CpacError::UnsupportedBackend(msg) && msg@ == display@ + " not available on this host"@,
{
    let mut msg = display.to_owned();
    msg.append(" not available on this host");
    CpacError::UnsupportedBackend(msg)
}

/// Intel QAT accelerator (not available on this build).
pub struct QatAccelerator;

/// Intel IAA accelerator (not available on this build).
pub struct IaaAccelerator;

/// AMD Xilinx Alveo accelerator (not available on this build).
pub struct XilinxAccelerator;

/// GPU compute accelerator (not available on this build).
pub struct GpuAccelerator;

/// ARM SVE2 accelerator (not available on this build).
pub struct Sve2Accelerator;

impl HardwareAccelerator for QatAccelerator {
    fn name(&self) -> (r: &str)
        ensures
            r@ == "Intel QAT"@,
    {
        "Intel QAT"
    }

    fn backend(&self) -> (r: AccelBackend)
        ensures
            r == AccelBackend::IntelQat,
    {
        AccelBackend::IntelQat
    }

    fn is_available(&self) -> (r: bool)
        ensures
            !r,
    {
        false
    }

    fn compress(&self, data: &[u8], level: i32) -> (r: Result<Vec<u8>, CpacError>)
        ensures
            r matches Err(CpacError::UnsupportedBackend(msg)) && msg@ == "Intel QAT"@ + " not available on this host"@,
    {
        Err(unavailable("Intel QAT"))
    }

    fn decompress(&self, data: &[u8], max_size: usize) -> (r: Result<Vec<u8>, CpacError>)
        ensures
            r matches Err(CpacError::UnsupportedBackend(msg)) && msg@ == "Intel QAT"@ + " not available on this host"@,
    {
        Err(unavailable("Intel QAT"))
    }

    fn supports_backend(&self, backend: Backend) -> (r: bool)
        ensures
            r == stub_supports(backend),
    {
        stub_supports_backend(backend)
    }
}

impl HardwareAccelerator for IaaAccelerator {
    fn name(&self) -> (r: &str)
        ensures
            r@ == "Intel IAA"@,
    {
        "Intel IAA"
    }

    fn backend(&self) -> (r: AccelBackend)
        ensures
            r == AccelBackend::IntelIaa,
    {
        AccelBackend::IntelIaa
    }

    fn is_available(&self) -> (r: bool)
        ensures
            !r,
    {
        false
    }

    fn compress(&self, data: &[u8], level: i32) -> (r: Result<Vec<u8>, CpacError>)
        ensures
            r matches Err(CpacError::UnsupportedBackend(msg)) && msg@ == "Intel IAA"@ + " not available on this host"@,
    {
        Err(unavailable("Intel IAA"))
    }

    fn decompress(&self, data: &[u8], max_size: usize) -> (r: Result<Vec<u8>, CpacError>)
        ensures
            r matches Err(CpacError::UnsupportedBackend(msg)) && msg@ == "Intel IAA"@ + " not available on this host"@,
    {
        Err(unavailable("Intel IAA"))
    }

    fn supports_backend(&self, backend: Backend) -> (r: bool)
        ensures
            r == stub_supports(backend),
    {
        stub_supports_backend(backend)
    }
}

impl HardwareAccelerator for XilinxAccelerator {
    fn name(&self) -> (r: &str)
        ensures
            r@ == "AMD Xilinx Alveo"@,
    {
        "AMD Xilinx Alveo"
    }

    fn backend(&self) -> (r: AccelBackend)
        ensures
            r == AccelBackend::AmdXilinx,
    {
        AccelBackend::AmdXilinx
    }

    fn is_available(&self) -> (r: bool)
        ensures
            !r,
    {
        false
    }

    fn compress(&self, data: &[u8], level: i32) -> (r: Result<Vec<u8>, CpacError>)
        ensures
            r matches Err(CpacError::UnsupportedBackend(msg)) && msg@ == "AMD Xilinx Alveo"@ + " not available on this host"@,
    {
        Err(unavailable("AMD Xilinx Alveo"))
    }

    fn decompress(&self, data: &[u8], max_size: usize) -> (r: Result<Vec<u8>, CpacError>)
        ensures
            r matches Err(CpacError::UnsupportedBackend(msg)) && msg@ == "AMD Xilinx Alveo"@ + " not available on this host"@,
    {
        Err(unavailable("AMD Xilinx Alveo"))
    }

    fn supports_backend(&self, backend: Backend) -> (r: bool)
        ensures
            r == stub_supports(backend),
    {
        stub_supports_backend(backend)
    }
}

impl HardwareAccelerator for GpuAccelerator {
    fn name(&self) -> (r: &str)
        ensures
            r@ == "GPU Compute"@,
    {
        "GPU Compute"
    }

    fn backend(&self) -> (r: AccelBackend)
        ensures
            r == AccelBackend::GpuCompute,
    {
        AccelBackend::GpuCompute
    }

    fn is_available(&self) -> (r: bool)
        ensures
            !r,
    {
        false
    }

    fn compress(&self, data: &[u8], level: i32) -> (r: Result<Vec<u8>, CpacError>)
        ensures
            r matches Err(CpacError::UnsupportedBackend(msg)) && msg@ == "GPU Compute"@ + " not available on this host"@,
    {
        Err(unavailable("GPU Compute"))
    }

    fn decompress(&self, data: &[u8], max_size: usize) -> (r: Result<Vec<u8>, CpacError>)
        ensures
            r matches Err(CpacError::UnsupportedBackend(msg)) && msg@ == "GPU Compute"@ + " not available on this host"@,
    {
        Err(unavailable("GPU Compute"))
    }

    fn supports_backend(&self, backend: Backend) -> (r: bool)
        ensures
            r == stub_supports(backend),
    {
        stub_supports_backend(backend)
    }
}

impl HardwareAccelerator for Sve2Accelerator {
    fn name(&self) -> (r: &str)
        ensures
            r@ == "ARM SVE2"@,
    {
        "ARM SVE2"
    }

    fn backend(&self) -> (r: AccelBackend)
        ensures
            r == AccelBackend::ArmSve2,
    {
        AccelBackend::ArmSve2
    }

    fn is_available(&self) -> (r: bool)
        ensures
            !r,
    {
        false
    }

    fn compress(&self, data: &[u8], level: i32) -> (r: Result<Vec<u8>, CpacError>)
        ensures
            r matches Err(CpacError::UnsupportedBackend(msg)) && msg@ == "ARM SVE2"@ + " not available on this host"@,
    {
        Err(unavailable("ARM SVE2"))
    }

    fn decompress(&self, data: &[u8], max_size: usize) -> (r: Result<Vec<u8>, CpacError>)
        ensures
            r matches Err(CpacError::UnsupportedBackend(msg)) && msg@ == "ARM SVE2"@ + " not available on this host"@,
    {
        Err(unavailable("ARM SVE2"))
    }

    fn supports_backend(&self, backend: Backend) -> (r: bool)
        ensures
            r == stub_supports(backend),
    {
        stub_supports_backend(backend)
    }
}

/// Whether an accelerator switch's value turns it on: `"1"` or `"true"`.
pub fn flag_enabled(value: &str) -> (r: bool)
    ensures
        r == (value@ == "1"@ || value@ == "true"@),
{
    let v = value.to_owned();
    let one = "1".to_owned();
    let yes = "true".to_owned();
    v == one || v == yes
}

/// The backends detected from the accelerator switches, software first, then
/// QAT, IAA, GPU, Xilinx and SVE2 in that order for each switch that is on.
pub open spec fn detected_spec(qat: bool, iaa: bool, gpu: bool, xilinx: bool, sve2: bool) -> Seq<AccelBackend> {
    seq![AccelBackend::Software]
        + (if qat { seq![AccelBackend::IntelQat] } else { Seq::empty() })
        + (if iaa { seq![AccelBackend::IntelIaa] } else { Seq::empty() })
        + (if gpu { seq![AccelBackend::GpuCompute] } else { Seq::empty() })
        + (if xilinx { seq![AccelBackend::AmdXilinx] } else { Seq::empty() })
        + (if sve2 { seq![AccelBackend::ArmSve2] } else { Seq::empty() })
}

/// The list of available backends given which accelerator switches are on.
pub fn detected_accelerators(qat: bool, iaa: bool, gpu: bool, xilinx: bool, sve2: bool) -> (r: Vec<AccelBackend>)
    ensures
        r@ == detected_spec(qat, iaa, gpu, xilinx, sve2),
{
    let mut available = vec![AccelBackend::Software];
    if qat {
        available.push(AccelBackend::IntelQat);
    }
    if iaa {
        available.push(AccelBackend::IntelIaa);
    }
    if gpu {
        available.push(AccelBackend::GpuCompute);
    }
    if xilinx {
        available.push(AccelBackend::AmdXilinx);
    }
    if sve2 {
        available.push(AccelBackend::ArmSve2);
    }
    available
}

/// The accelerator chosen for a preference among the available backends: the
/// preference when it is available, else software; with no preference the
/// first available of QAT, IAA, GPU, Xilinx, SVE2, else software.
pub open spec fn select_spec(preference: Option<AccelBackend>, available: Seq<AccelBackend>) -> AccelBackend {
    match preference {
        Some(p) => if available.contains(p) { p } else { AccelBackend::Software },
        None => {
            if available.contains(AccelBackend::IntelQat) {
                AccelBackend::IntelQat
            } else if available.contains(AccelBackend::IntelIaa) {
                AccelBackend::IntelIaa
            } else if available.contains(AccelBackend::GpuCompute) {
                AccelBackend::GpuCompute
            } else if available.contains(AccelBackend::AmdXilinx) {
                AccelBackend::AmdXilinx
            } else if available.contains(AccelBackend::ArmSve2) {
                AccelBackend::ArmSve2
            } else {
                AccelBackend::Software
            }
        },
    }
}

fn contains_backend(available: &[AccelBackend], b: AccelBackend) -> (r: bool)
    ensures
        r == available@.contains(b),
{
    let mut i: usize = 0;
    while i < available.len()
        invariant
            i <= available.len(),
            forall|k: int| 0 <= k < i ==> available@[k] != b,
        decreases available.len() - i,
    {
        if available[i] == b {
            return true;
        }
        i = i + 1;
    }
    false
}

/// Selects the best available accelerator for a preference.
pub fn select_accelerator(preference: Option<AccelBackend>, available: &[AccelBackend]) -> (r: AccelBackend)
    ensures
        r == select_spec(preference, available@),
{
    match preference {
        Some(p) => {
            if contains_backend(available, p) {
                p
            } else {
                AccelBackend::Software
            }
        },
        None => {
            if contains_backend(available, AccelBackend::IntelQat) {
                AccelBackend::IntelQat
            } else if contains_backend(available, AccelBackend::IntelIaa) {
                AccelBackend::IntelIaa
            } else if contains_backend(available, AccelBackend::GpuCompute) {
                AccelBackend::GpuCompute
            } else if contains_backend(available, AccelBackend::AmdXilinx) {
                AccelBackend::AmdXilinx
            } else if contains_backend(available, AccelBackend::ArmSve2) {
                AccelBackend::ArmSve2
            } else {
                AccelBackend::Software
            }
        },
    }
}

} // verus!

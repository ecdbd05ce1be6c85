use cpac::accel::{
    detected_accelerators, flag_enabled, select_accelerator, AccelBackend, Backend, GpuAccelerator,
    HardwareAccelerator, IaaAccelerator, QatAccelerator, SoftwareAccelerator, Sve2Accelerator,
    XilinxAccelerator,
};
use cpac::error::CpacError;

#[test]
fn software_always_available() {
    let sw = SoftwareAccelerator;
    assert!(sw.is_available());
    assert_eq!(sw.backend(), AccelBackend::Software);
    assert!(sw.supports_backend(Backend::Zstd));
}

#[test]
fn stubs_not_available() {
    let qat = QatAccelerator;
    assert!(!qat.is_available());
    assert!(qat.compress(b"test", 3).is_err());
}

#[test]
fn select_auto_defaults_to_software() {
    let available = vec![AccelBackend::Software];
    assert_eq!(select_accelerator(None, &available), AccelBackend::Software);
}

#[test]
fn select_explicit_preference() {
    let available = vec![AccelBackend::Software, AccelBackend::IntelQat];
    assert_eq!(
        select_accelerator(Some(AccelBackend::IntelQat), &available),
        AccelBackend::IntelQat
    );
}

#[test]
fn select_unavailable_falls_back() {
    let available = vec![AccelBackend::Software];
    assert_eq!(
        select_accelerator(Some(AccelBackend::GpuCompute), &available),
        AccelBackend::Software
    );
}

#[test]
fn select_auto_prefers_qat_over_gpu() {
    let available = vec![AccelBackend::Software, AccelBackend::GpuCompute, AccelBackend::IntelQat];
    assert_eq!(select_accelerator(None, &available), AccelBackend::IntelQat);
    let available = vec![AccelBackend::Software, AccelBackend::ArmSve2, AccelBackend::AmdXilinx];
    assert_eq!(select_accelerator(None, &available), AccelBackend::AmdXilinx);
}

#[test]
fn software_zstd_roundtrip() {
    let sw = SoftwareAccelerator;
    let data: Vec<u8> = b"abcabcabcabcabcabcabcabcabcabcabcabcabcabc".to_vec();
    let c = sw.compress(&data, 3).unwrap();
    assert_ne!(c, data);
    assert_eq!(&c[0..4], &[0x28, 0xb5, 0x2f, 0xfd]);
    let d = sw.decompress(&c, data.len()).unwrap();
    assert_eq!(d, data);
}

#[test]
fn software_decompress_garbage_fails() {
    let sw = SoftwareAccelerator;
    let r = sw.decompress(b"not a zstd frame", 100);
    assert!(matches!(r, Err(CpacError::DecompressFailed(_))));
}

#[test]
fn stub_messages_and_backends() {
    let r = IaaAccelerator.decompress(b"x", 10);
    match r {
        Err(CpacError::UnsupportedBackend(m)) => assert_eq!(m, "Intel IAA not available on this host"),
        _ => panic!("expected unsupported backend"),
    }
    assert_eq!(XilinxAccelerator.name(), "AMD Xilinx Alveo");
    assert_eq!(GpuAccelerator.backend(), AccelBackend::GpuCompute);
    assert!(Sve2Accelerator.supports_backend(Backend::Gzip));
    assert!(!Sve2Accelerator.supports_backend(Backend::Brotli));
    assert_eq!(SoftwareAccelerator.name(), "software");
}

#[test]
fn accelerator_flags() {
    assert!(flag_enabled("1"));
    assert!(flag_enabled("true"));
    assert!(!flag_enabled("yes"));
    assert!(!flag_enabled("TRUE"));
    assert_eq!(detected_accelerators(false, false, false, false, false), vec![AccelBackend::Software]);
    assert_eq!(
        detected_accelerators(true, false, true, true, false),
        vec![AccelBackend::Software, AccelBackend::IntelQat, AccelBackend::GpuCompute, AccelBackend::AmdXilinx]
    );
}

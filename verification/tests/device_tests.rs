use candle_core::Device;
use vibevoice::device::{parse_device, DeviceSpec, DeviceSpecError};
use vibevoice::error::VibeVoiceCoreError;

#[test]
fn parse_device_rejects_invalid_value() {
    assert!(parse_device("gpu").is_err());
}

#[test]
fn parse_device_accepts_auto_and_cuda() {
    assert!(matches!(parse_device("auto").unwrap(), DeviceSpec::Auto));
    assert!(matches!(parse_device("cuda:1").unwrap(), DeviceSpec::Cuda(1)));
}

#[test]
fn parse_device_accepts_cpu() {
    assert!(matches!(parse_device("cpu").unwrap(), DeviceSpec::Cpu));
}

#[test]
fn parse_device_rejects_malformed_cuda_index() {
    assert!(parse_device("cuda:not-a-number").is_err());
}

#[test]
fn parse_device_ignores_letter_case_of_names() {
    assert_eq!(parse_device("AUTO"), Ok(DeviceSpec::Auto));
    assert_eq!(parse_device("Cpu"), Ok(DeviceSpec::Cpu));
}

#[test]
fn parse_device_cuda_prefix_is_case_sensitive() {
    assert_eq!(parse_device("CUDA:0"), Err(DeviceSpecError::Unsupported));
}

#[test]
fn parse_device_reads_index_like_integer_parsing() {
    assert_eq!(parse_device("cuda:+3"), Ok(DeviceSpec::Cuda(3)));
    assert_eq!(parse_device("cuda:007"), Ok(DeviceSpec::Cuda(7)));
    assert_eq!(parse_device("cuda:"), Err(DeviceSpecError::InvalidCudaIndex));
    assert_eq!(parse_device("cuda:+"), Err(DeviceSpecError::InvalidCudaIndex));
    assert_eq!(parse_device("cuda:-1"), Err(DeviceSpecError::InvalidCudaIndex));
    assert_eq!(parse_device("cuda: 1"), Err(DeviceSpecError::InvalidCudaIndex));
    assert_eq!(
        parse_device("cuda:99999999999999999999999999"),
        Err(DeviceSpecError::InvalidCudaIndex)
    );
}

#[test]
fn parse_device_rejects_other_words() {
    assert_eq!(parse_device(""), Err(DeviceSpecError::Unsupported));
    assert_eq!(parse_device(" cpu"), Err(DeviceSpecError::Unsupported));
    assert_eq!(parse_device("cuda"), Err(DeviceSpecError::Unsupported));
}

#[test]
fn cpu_device_resolves() {
    let device = DeviceSpec::Cpu.resolve().unwrap();
    assert!(matches!(device, Device::Cpu));
}

#[test]
fn auto_device_resolves() {
    let _ = DeviceSpec::Auto.resolve().unwrap();
}

#[test]
fn auto_device_resolves_to_cpu() {
    assert!(matches!(DeviceSpec::Auto.resolve().unwrap(), Device::Cpu));
}

#[test]
fn cuda_device_is_refused_without_cuda_support() {
    assert!(matches!(
        DeviceSpec::Cuda(0).resolve(),
        Err(VibeVoiceCoreError::UnsupportedConfig(_))
    ));
}

use riscv_mm::sbi::{
    decode_console_char, decode_spec_version, sbi_legacy_result, sbi_result, HartMask, SbiError,
    SbiErrorType,
};

#[test]
fn sbi_result_classifies() {
    assert_eq!(sbi_result(0, 42), Ok(42));
    let e = sbi_result(-3, 7).unwrap_err();
    assert_eq!(e.raw_code(), Some(-3));
}

#[test]
fn sbi_error_keeps_nonzero_codes() {
    assert_eq!(SbiError::new(0).raw_code(), None);
    assert_eq!(SbiError::new(-5).raw_code(), Some(-5));
}

#[test]
fn legacy_result_classifies() {
    assert_eq!(sbi_legacy_result(0), Ok(()));
    assert_eq!(sbi_legacy_result(-1), Err(-1));
}

#[test]
fn spec_version_splits() {
    assert_eq!(decode_spec_version((1 << 24) | 5), (1, 5));
    assert_eq!(decode_spec_version(0), (0, 0));
}

#[test]
fn console_char_decodes() {
    assert_eq!(decode_console_char(-1), None);
    assert_eq!(decode_console_char(0x41), Some(0x41));
    assert_eq!(decode_console_char(0x141), Some(0x41));
}

#[test]
fn error_type_codes() {
    assert_eq!(SbiErrorType::Failed.code(), -1);
    assert_eq!(SbiErrorType::NotSupported.code(), -2);
    assert_eq!(SbiErrorType::DeniedLocked.code(), -14);
    let hm = HartMask { base: 0, mask: 1 };
    assert_eq!(hm.mask, 1);
}

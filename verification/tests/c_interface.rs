use hat::c::create_signature;
use hat::c::libhat_alignment;
use hat::c::libhat_hint;
use hat::c::libhat_protection;
use hat::c::libhat_status;
use hat::c::libhat_status_to_string;
use hat::c::parse_u32;
use hat::c::to_cpp_align;
use hat::c::to_cpp_hints;
use hat::c::to_cpp_signature_error;
use hat::c::version_num;
use hat::protection::Protection;
use hat::scanner::ScanAlignment;
use hat::signature::SignatureError;

#[test]
fn status_codes_and_names() {
    assert_eq!(libhat_status::Success.code(), 0);
    assert_eq!(libhat_status::SigEmptySignature.code(), 4);
    assert_eq!(libhat_status::InvalidArgumentType.code(), 8);
    assert_eq!(libhat_status_to_string(libhat_status::Success), "libhat_success");
    assert_eq!(libhat_status_to_string(libhat_status::SigEmptySignature), "libhat_err_sig_empty_signature");
    assert_eq!(libhat_status_to_string(libhat_status::InvalidArgumentValue), "libhat_err_invalid_argument_value");
}

#[test]
fn alignments_and_hints() {
    assert_eq!(to_cpp_align(libhat_alignment::X1), Some(ScanAlignment::X1));
    assert_eq!(to_cpp_align(libhat_alignment::X4), None);
    assert_eq!(to_cpp_align(libhat_alignment::X16), Some(ScanAlignment::X16));
    assert_eq!(to_cpp_hints(libhat_hint::avx2()).bits(), 2);
    assert_eq!(to_cpp_hints(libhat_hint::none()).bits(), 0);
    assert_eq!(libhat_hint::aarch64().0, 16);
}

#[test]
fn signature_errors() {
    assert_eq!(to_cpp_signature_error(SignatureError::InvalidTokenLength), libhat_status::SigInvalidTokenLength);
    assert_eq!(to_cpp_signature_error(SignatureError::MissingMaskedByte), libhat_status::SigMissingMaskedByte);
    assert_eq!(to_cpp_signature_error(SignatureError::ExpectedWildcard), libhat_status::SigExpectedWildcard);
}

#[test]
fn signature_from_bytes_and_mask() {
    assert_eq!(create_signature(&[], &[]), Err(libhat_status::SigEmptySignature));
    assert_eq!(create_signature(&[0x12, 0x34], &[0xF0, 0x0F]), Err(libhat_status::SigMissingMaskedByte));
    let sig = create_signature(&[0x48, 0x8D, 0x05], &[0xFF, 0xFF, 0x00]).unwrap();
    assert_eq!(sig.len(), 3);
    assert_eq!(sig[0].value(), 0x48);
    assert!(sig[1].is_all());
    assert!(sig[2].is_none());
    assert!(sig[1].is_any());
    assert_eq!(sig[2].value(), 0);
    let sig = create_signature(&[0xAB, 0x12], &[0xFF, 0xF0]).unwrap();
    assert_eq!(sig[1].value(), 0x10);
    assert_eq!(sig[1].mask(), 0xF0);
}

#[test]
fn version_numbers() {
    assert_eq!(parse_u32("123"), 123);
    assert_eq!(parse_u32("0"), 0);
    assert_eq!(parse_u32(""), 0);
    assert_eq!(version_num(1, 2, 3), 0x010203);
    assert_eq!(version_num(0, 1, 0), 0x100);
}

#[test]
fn protection_bits_for_c() {
    assert_eq!(libhat_protection::from_rust(Protection::read() | Protection::execute()).0, 5);
    assert_eq!(libhat_protection::from_rust(Protection::empty()).0, 0);
    assert_eq!(libhat_protection::from_rust(Protection::read() | Protection::write() | Protection::execute()).0, 7);
}

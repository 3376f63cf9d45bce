use hat::signature::parse_signature;
use hat::signature::to_string;
use hat::signature::SignatureElement;
use hat::signature::SignatureError;
use hat::signature::compile_signature;
use hat::signature::bytes_to_signature;
use hat::signature::string_to_signature;
use hat::signature::parse_signature_to;
use hat::signature::parse_str;
use hat::signature::object_to_signature;
use hat::signature::error_message;

#[test]
fn test_parse_signature() {
    let sig = parse_signature("48 8D 05 ? ? ? ? E8").unwrap();
    assert_eq!(sig.len(), 8);
    assert_eq!(sig[0].value(), 0x48);
    assert!(sig[0].is_all());
    assert_eq!(sig[1].value(), 0x8D);
    assert!(sig[1].is_all());
    assert!(sig[3].is_none());
    assert_eq!(sig[7].value(), 0xE8);
}

#[test]
fn test_parse_signature_with_wildcards() {
    let sig = parse_signature("AB ? 12 ?3").unwrap();
    assert_eq!(sig.len(), 4);
    assert_eq!(sig[0].value(), 0xAB);
    assert!(sig[0].is_all());
    assert!(sig[1].is_none());
    assert_eq!(sig[2].value(), 0x12);
    assert!(sig[2].is_all());
    assert_eq!(sig[3].mask(), 0x0F);
}

#[test]
fn test_to_string() {
    let sig = parse_signature("48 8D 05 ? ? ? ? E8").unwrap();
    let s = to_string(&sig);
    assert_eq!(s, "48 8D 05 ? ? ? ? E8");
}

#[test]
fn test_empty_signature() {
    assert!(parse_signature("").is_err());
}

#[test]
fn test_sig_macro() {
    let sig: &[SignatureElement] = &[
        SignatureElement::from_value(0x48),
        SignatureElement::from_value(0x8D),
        SignatureElement::from_value(0x05),
        SignatureElement::wildcard(),
        SignatureElement::wildcard(),
        SignatureElement::wildcard(),
        SignatureElement::wildcard(),
        SignatureElement::from_value(0xE8),
    ];
    assert_eq!(sig.len(), 8);
    assert_eq!(sig[0].value(), 0x48);
    assert!(sig[3].is_none());
}

#[test]
fn test_signature_matches() {
    let sig = parse_signature("48 8D 05 ? ? ? ? E8").unwrap();
    let bytes = [0x48, 0x8D, 0x05, 0xBE, 0x53, 0x23, 0x01];
    for (elem, byte) in sig.iter().zip(bytes.iter()) {
        assert!(elem.matches(*byte));
    }
    assert!(!sig[0].matches(0x49));
}

#[test]
fn parse_errors_each_kind() {
    assert_eq!(parse_signature("").unwrap_err(), SignatureError::EmptySignature);
    assert_eq!(parse_signature("   ").unwrap_err(), SignatureError::EmptySignature);
    assert_eq!(parse_signature("? ?").unwrap_err(), SignatureError::MissingMaskedByte);
    assert_eq!(parse_signature("?3").unwrap_err(), SignatureError::MissingMaskedByte);
    assert_eq!(parse_signature("?? ?? ??").unwrap_err(), SignatureError::MissingMaskedByte);
    assert_eq!(parse_signature("ZZ").unwrap_err(), SignatureError::ElementParseError);
    assert_eq!(parse_signature("AB 1100110x").unwrap_err(), SignatureError::ElementParseError);
    assert_eq!(parse_signature("AB 12200110").unwrap_err(), SignatureError::ElementParseError);
    assert_eq!(parse_signature("AB X").unwrap_err(), SignatureError::ExpectedWildcard);
    assert_eq!(parse_signature("ABC").unwrap_err(), SignatureError::InvalidTokenLength);
    assert_eq!(parse_signature("AB 1234").unwrap_err(), SignatureError::InvalidTokenLength);
}

#[test]
fn parse_hex_lowercase_and_extra_spaces() {
    let sig = parse_signature("  ab   cD ").unwrap();
    assert_eq!(sig.len(), 2);
    assert_eq!(sig[0].value(), 0xAB);
    assert_eq!(sig[1].value(), 0xCD);
    assert_eq!(sig[1].mask(), 0xFF);
}

#[test]
fn parse_binary_element() {
    let sig = parse_signature("1100???? 10101010").unwrap();
    assert_eq!(sig.len(), 2);
    assert_eq!(sig[0].value(), 0xC0);
    assert_eq!(sig[0].mask(), 0xF0);
    assert_eq!(sig[1].value(), 0xAA);
    assert_eq!(sig[1].mask(), 0xFF);
    let sig = parse_signature("????1111 AB").unwrap();
    assert_eq!(sig[0].value(), 0x0F);
    assert_eq!(sig[0].mask(), 0x0F);
}

#[test]
fn parse_to_keeps_elements_before_error() {
    let mut sig = vec![SignatureElement::from_value(0x11)];
    let r = parse_signature_to(&mut sig, "AB CD ZZ EF");
    assert_eq!(r, Err(SignatureError::ElementParseError));
    assert_eq!(sig.len(), 3);
    assert_eq!(sig[1].value(), 0xAB);
    assert_eq!(sig[2].value(), 0xCD);
    let mut sig2 = Vec::new();
    assert_eq!(parse_signature_to(&mut sig2, "AB ? CD"), Ok(3));
    assert_eq!(sig2.len(), 3);
}

#[test]
fn element_constructors() {
    let e = SignatureElement::from_value_mask(0xFF, 0x0F);
    assert_eq!(e.value(), 0x0F);
    assert_eq!(e.mask(), 0x0F);
    assert!(e.is_any());
    assert!(!e.is_all());
    assert!(!e.is_none());
    assert!(e.matches(0xAF));
    assert!(!e.matches(0xAE));
    let w = SignatureElement::new();
    assert!(w.is_none());
    assert!(w.matches(0x12));
    assert_eq!(SignatureElement::default(), SignatureElement::wildcard());
    let f: SignatureElement = 0x42u8.into();
    assert_eq!(f, SignatureElement::from_value(0x42));
}

#[test]
fn to_string_forms() {
    let sig = vec![
        SignatureElement::from_value(0xAB),
        SignatureElement::from_value_mask(0xA0, 0xF0),
        SignatureElement::from_value_mask(0x03, 0x0F),
        SignatureElement::wildcard(),
        SignatureElement::from_value_mask(0b1010_0001, 0b1110_0011),
    ];
    assert_eq!(to_string(&sig), "AB A? ?3 ? 101???01");
    assert_eq!(to_string(&[]), "");
}

#[test]
fn to_string_parse_roundtrip() {
    let text = "AB A? ?3 ? 101???01 00";
    let sig = parse_signature(text).unwrap();
    let back = parse_signature(&to_string(&sig)).unwrap();
    assert_eq!(sig, back);
    assert_eq!(to_string(&sig), text);
}

#[test]
fn to_string_lossy_binary_element() {
    // One full nibble next to a partial one is written in hex.
    let sig = parse_signature("1111??01 AB").unwrap();
    assert_eq!(to_string(&sig), "F? AB");
}

#[test]
fn fixed_and_byte_signatures() {
    let arr = bytes_to_signature(&[1u8, 2, 3]);
    assert_eq!(arr[2], SignatureElement::from_value(3));
    let c: [SignatureElement; 4] = compile_signature("AB ?").unwrap();
    assert_eq!(c[0], SignatureElement::from_value(0xAB));
    assert!(c[1].is_none());
    assert!(c[3].is_none());
    assert_eq!(compile_signature::<4>("?").unwrap_err(), SignatureError::MissingMaskedByte);
    let s = string_to_signature("hi").unwrap();
    assert_eq!(s, vec![SignatureElement::from_value(b'h'), SignatureElement::from_value(b'i')]);
    assert_eq!(string_to_signature("").unwrap_err(), SignatureError::EmptySignature);
}

#[test]
fn parse_str_pairs() {
    assert_eq!(parse_str("AB ?3 ?"), vec![(0xAB, 0xFF), (0x03, 0x0F), (0, 0)]);
    assert_eq!(parse_str("AB ZZ"), Vec::<(u8, u8)>::new());
    assert_eq!(parse_str("? ?"), vec![(0, 0), (0, 0)]);
}

#[test]
fn object_bytes_signature() {
    let value: u32 = 0x1234_5678;
    let sig = object_to_signature(&value.to_le_bytes());
    assert_eq!(sig.len(), 4);
    assert_eq!(sig[0], SignatureElement::from_value(0x78));
    assert_eq!(sig[3], SignatureElement::from_value(0x12));
    assert!(sig.iter().all(|e| e.is_all()));
    assert_eq!(object_to_signature(&[]).len(), 0);
}

#[test]
fn error_texts() {
    assert_eq!(error_message(SignatureError::MissingMaskedByte), "signature missing masked byte");
    assert_eq!(error_message(SignatureError::ElementParseError), "signature element parse error");
    assert_eq!(error_message(SignatureError::EmptySignature), "empty signature");
    assert_eq!(error_message(SignatureError::ExpectedWildcard), "expected wildcard");
    assert_eq!(error_message(SignatureError::InvalidTokenLength), "invalid token length");
}

#[test]
fn readme_pattern_forms() {
    // `A?` matches the bytes 1010????.
    let sig = parse_signature("A? 01").unwrap();
    assert!(sig[0].matches(0xA0) && sig[0].matches(0xAF));
    assert!(!sig[0].matches(0xB0));
    // `????????`, `??` and `?` all match any byte.
    let a = parse_signature("???????? 01").unwrap();
    let b = parse_signature("?? 01").unwrap();
    let c = parse_signature("? 01").unwrap();
    assert_eq!(a, c);
    assert_eq!(b, c);
    assert!(c[0].is_none());
    // The allowed forms.
    assert!(parse_signature("?1 02").is_ok());
    assert!(parse_signature("?? 02").is_ok());
    assert!(parse_signature("01 02").is_ok());
    // `AB ? 12 ?3` matches s[0] == 0xAB, s[2] == 0x12, s[3] & 0x0F == 0x03.
    let sig = parse_signature("AB ? 12 ?3").unwrap();
    let data = [0x00u8, 0xAB, 0x77, 0x12, 0xF3, 0xAB, 0x00, 0x12, 0x04];
    let r = hat::scanner::find_pattern(&data, &sig, hat::scanner::ScanAlignment::X1, hat::scanner::ScanHint::none());
    assert_eq!(r.get(), Some(1));
}

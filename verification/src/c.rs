//! The decisions behind the C interface: status codes, the conversion of
//! alignments, hints, protections and signature errors, and the checks on
//! a signature built from raw bytes and a mask.  The exported functions
//! themselves, which handle raw pointers, are outside this library.
#![allow(non_camel_case_types)]

use vstd::prelude::*;
use crate::protection::Protection;
use crate::scanner::ScanAlignment;
use crate::scanner::ScanHint;
use crate::signature::SignatureElement;
use crate::signature::SignatureError;
use crate::signature::spec_has_full_byte;
use vstd::string::StringSliceAdditionalSpecFns;

verus! {

/// The outcome of a C interface call; the C value of each variant is its
/// position, from 0.
#[derive(Clone, Copy, Debug, PartialEq, Eq, Structural)]
pub enum libhat_status {
    Success,
    ErrUnknown,
    SigMissingMaskedByte,
    SigElementParseError,
    SigEmptySignature,
    SigExpectedWildcard,
    SigInvalidTokenLength,
    InvalidArgumentValue,
    InvalidArgumentType,
}

impl libhat_status {
    /// The C value of the status.
    pub fn code(self) -> (r: u32)
        ensures
            r == match self {
                libhat_status::Success => 0u32,
                libhat_status::ErrUnknown => 1,
                libhat_status::SigMissingMaskedByte => 2,
                libhat_status::SigElementParseError => 3,
                libhat_status::SigEmptySignature => 4,
                libhat_status::SigExpectedWildcard => 5,
                libhat_status::SigInvalidTokenLength => 6,
                libhat_status::InvalidArgumentValue => 7,
                libhat_status::InvalidArgumentType => 8,
            },
    {
        match self {
            libhat_status::Success => 0,
            libhat_status::ErrUnknown => 1,
            libhat_status::SigMissingMaskedByte => 2,
            libhat_status::SigElementParseError => 3,
            libhat_status::SigEmptySignature => 4,
            libhat_status::SigExpectedWildcard => 5,
            libhat_status::SigInvalidTokenLength => 6,
            libhat_status::InvalidArgumentValue => 7,
            libhat_status::InvalidArgumentType => 8,
        }
    }
}

/// The alignments the C interface names.
#[derive(Clone, Copy, Debug, PartialEq, Eq, Structural)]
pub enum libhat_alignment {
    X1,
    X4,
    X16,
}

/// Hint bits as the C interface passes them.
#[derive(Clone, Copy, Debug, PartialEq, Eq, Structural)]
pub struct libhat_hint(pub u32);

impl libhat_hint {
    pub fn none() -> (r: libhat_hint)
        ensures
            r.0 == 0,
    {
        libhat_hint(0)
    }

    pub fn sse42() -> (r: libhat_hint)
        ensures
            r.0 == 1,
    {
        libhat_hint(1)
    }

    pub fn avx2() -> (r: libhat_hint)
        ensures
            r.0 == 2,
    {
        libhat_hint(2)
    }

    pub fn avx512() -> (r: libhat_hint)
        ensures
            r.0 == 4,
    {
        libhat_hint(4)
    }

    pub fn neon() -> (r: libhat_hint)
        ensures
            r.0 == 8,
    {
        libhat_hint(8)
    }

    pub fn aarch64() -> (r: libhat_hint)
        ensures
            r.0 == 16,
    {
        libhat_hint(16)
    }
}

/// Protection bits as the C interface passes them: read 1, write 2,
/// execute 4.
#[derive(Clone, Copy, Debug, PartialEq, Eq, Structural)]
pub struct libhat_protection(pub u32);

impl libhat_protection {
    /// The C bits of a protection: read, write and execute each carried over
    /// to its C bit.
    pub fn from_rust(prot: Protection) -> (r: libhat_protection)
        ensures
            r.0 == (if prot.spec_contains(Protection::spec_read()) { 1u32 } else { 0u32 }) + (if prot.spec_contains(
                Protection::spec_write(),
            ) {
                2u32
            } else {
                0u32
            }) + (if prot.spec_contains(Protection::spec_execute()) { 4u32 } else { 0u32 }),
    {
        let mut p: u32 = 0;
        if prot.contains(Protection::read()) {
            p = p + 1;
        }
        if prot.contains(Protection::write()) {
            p = p + 2;
        }
        if prot.contains(Protection::execute()) {
            p = p + 4;
        }
        libhat_protection(p)
    }
}

/// The scanner alignment for a C alignment; the scanner has no 4-byte
/// alignment, so `X4` has none.
pub fn to_cpp_align(align: libhat_alignment) -> (r: Option<ScanAlignment>)
    ensures
        r == match align {
            libhat_alignment::X1 => Some(ScanAlignment::X1),
            libhat_alignment::X4 => None,
            libhat_alignment::X16 => Some(ScanAlignment::X16),
        },
{
    match align {
        libhat_alignment::X1 => Some(ScanAlignment::X1),
        libhat_alignment::X4 => None,
        libhat_alignment::X16 => Some(ScanAlignment::X16),
    }
}

/// The scanner hints with the same bits as the C hints.
pub fn to_cpp_hints(hints: libhat_hint) -> (r: ScanHint)
    ensures
        r.spec_bits() == hints.0 as u64,
{
    ScanHint::from_bits(hints.0 as u64)
}

/// The status that reports a signature error.
pub fn to_cpp_signature_error(err: SignatureError) -> (r: libhat_status)
    ensures
        r == match err {
            SignatureError::MissingMaskedByte => libhat_status::SigMissingMaskedByte,
            SignatureError::EmptySignature => libhat_status::SigEmptySignature,
            SignatureError::ElementParseError => libhat_status::SigElementParseError,
            SignatureError::ExpectedWildcard => libhat_status::SigExpectedWildcard,
            SignatureError::InvalidTokenLength => libhat_status::SigInvalidTokenLength,
        },
{
    match err {
        SignatureError::MissingMaskedByte => libhat_status::SigMissingMaskedByte,
        SignatureError::EmptySignature => libhat_status::SigEmptySignature,
        SignatureError::ElementParseError => libhat_status::SigElementParseError,
        SignatureError::ExpectedWildcard => libhat_status::SigExpectedWildcard,
        SignatureError::InvalidTokenLength => libhat_status::SigInvalidTokenLength,
    }
}

/// The name of a status, as the C interface reports it.
pub fn libhat_status_to_string(status: libhat_status) -> (r: &'static str)
    ensures
        r@ == match status {
            libhat_status::Success => "libhat_success"@,
            libhat_status::ErrUnknown => "libhat_err_unknown"@,
            libhat_status::SigMissingMaskedByte => "libhat_err_sig_missing_masked_byte"@,
            libhat_status::SigElementParseError => "libhat_err_sig_element_parse_error"@,
            libhat_status::SigEmptySignature => "libhat_err_sig_empty_signature"@,
            libhat_status::SigExpectedWildcard => "libhat_err_sig_expected_wildcard"@,
            libhat_status::SigInvalidTokenLength => "libhat_err_sig_invalid_token_length"@,
            libhat_status::InvalidArgumentValue => "libhat_err_invalid_argument_value"@,
            libhat_status::InvalidArgumentType => "libhat_err_invalid_argument_type"@,
        },
{
    match status {
        libhat_status::Success => "libhat_success",
        libhat_status::ErrUnknown => "libhat_err_unknown",
        libhat_status::SigMissingMaskedByte => "libhat_err_sig_missing_masked_byte",
        libhat_status::SigElementParseError => "libhat_err_sig_element_parse_error",
        libhat_status::SigEmptySignature => "libhat_err_sig_empty_signature",
        libhat_status::SigExpectedWildcard => "libhat_err_sig_expected_wildcard",
        libhat_status::SigInvalidTokenLength => "libhat_err_sig_invalid_token_length",
        libhat_status::InvalidArgumentValue => "libhat_err_invalid_argument_value",
        libhat_status::InvalidArgumentType => "libhat_err_invalid_argument_type",
    }
}

/// Builds a signature from parallel byte and mask arrays: element `i` is
/// `bytes[i]` under `mask[i]`.  An empty input and a signature without a
/// fully masked byte are refused.
pub fn create_signature(bytes: &[u8], mask: &[u8]) -> (r: Result<Vec<SignatureElement>, libhat_status>)
    requires
        bytes@.len() == mask@.len(),
    ensures
        bytes@.len() == 0 ==> r == Err::<Vec<SignatureElement>, libhat_status>(libhat_status::SigEmptySignature),
        bytes@.len() > 0 ==> {
            let els = Seq::new(
                bytes@.len(),
                |i: int| SignatureElement::spec_from_value_mask(bytes@[i], mask@[i]),
            );
            &&& spec_has_full_byte(els) ==> (r matches Ok(v) && v@ == els)
            &&& !spec_has_full_byte(els) ==> r == Err::<Vec<SignatureElement>, libhat_status>(
                libhat_status::SigMissingMaskedByte,
            )
        },
{
    let size = bytes.len();
    if size == 0 {
        return Err(libhat_status::SigEmptySignature);
    }
    let ghost els = Seq::new(size as nat, |i: int| SignatureElement::spec_from_value_mask(bytes@[i], mask@[i]));
    let mut sig: Vec<SignatureElement> = Vec::new();
    let mut contains_byte = false;
    let mut i: usize = 0;
    while i < size
        invariant
            size == bytes@.len(),
            size == mask@.len(),
            0 <= i <= size,
            els == Seq::new(size as nat, |i: int| SignatureElement::spec_from_value_mask(bytes@[i], mask@[i])),
            sig@ =~= els.take(i as int),
            contains_byte == spec_has_full_byte(els.take(i as int)),
        decreases size - i,
    {
        let elem = SignatureElement::from_value_mask(bytes[i], mask[i]);
        proof {
            let before = els.take(i as int);
            let after = els.take(i + 1);
            assert(after =~= before.push(elem));
            if elem.spec_is_all() {
                assert(after[i as int].spec_is_all());
            }
            if spec_has_full_byte(before) {
                let k = choose|k: int| 0 <= k < before.len() && #[trigger] before[k].spec_is_all();
                assert(after[k] == before[k]);
            }
            if spec_has_full_byte(after) {
                let k = choose|k: int| 0 <= k < after.len() && #[trigger] after[k].spec_is_all();
                if k < i {
                    assert(before[k] == after[k]);
                }
            }
        }
        contains_byte = contains_byte || elem.is_all();
        sig.push(elem);
        i = i + 1;
    }
    assert(els.take(size as int) =~= els);
    if !contains_byte {
        return Err(libhat_status::SigMissingMaskedByte);
    }
    Ok(sig)
}

/// The decimal value of a string read left to right: each byte counts for
/// its distance from the digit `0` (so digits count for their value).
pub open spec fn spec_decimal(s: Seq<u8>) -> int
    decreases s.len(),
{
    if s.len() == 0 {
        0
    } else {
        spec_decimal(s.drop_last()) * 10 + (s.last() - 48)
    }
}

/// Reads a version component such as `12`.  A byte below `0`, or a value
/// past `u32::MAX`, would overflow the arithmetic; such texts are outside
/// the contract.
pub fn parse_u32(s: &str) -> (r: u32)
    requires
        forall|i: int| 0 <= i < s.spec_bytes().len() ==> 48 <= #[trigger] s.spec_bytes()[i],
        spec_decimal(s.spec_bytes()) <= u32::MAX,
    ensures
        r as int == spec_decimal(s.spec_bytes()),
{
    let bytes = s.as_bytes();
    let n = bytes.len();
    let mut result: u32 = 0;
    let mut i: usize = 0;
    proof {
        assert(bytes@.take(0) =~= Seq::<u8>::empty());
    }
    while i < n
        invariant
            n == bytes@.len(),
            bytes@ == s.spec_bytes(),
            forall|i: int| 0 <= i < bytes@.len() ==> 48 <= #[trigger] bytes@[i],
            spec_decimal(bytes@) <= u32::MAX,
            0 <= i <= n,
            result as int == spec_decimal(bytes@.take(i as int)),
        decreases n - i,
    {
        proof {
            assert(bytes@.take(i + 1).drop_last() =~= bytes@.take(i as int));
            lemma_decimal_prefix_bound(bytes@, i + 1);
        }
        result = result * 10 + (bytes[i] - 48) as u32;
        i = i + 1;
    }
    assert(bytes@.take(n as int) =~= bytes@);
    result
}

/// The value of a prefix of digits is at most the value of the whole.
proof fn lemma_decimal_prefix_bound(s: Seq<u8>, k: int)
    requires
        0 <= k <= s.len(),
        forall|i: int| 0 <= i < s.len() ==> 48 <= #[trigger] s[i],
    ensures
        0 <= spec_decimal(s.take(k)) <= spec_decimal(s),
    decreases s.len() - k,
{
    if k == s.len() {
        assert(s.take(k) =~= s);
        lemma_decimal_nonneg(s);
    } else {
        lemma_decimal_prefix_bound(s, k + 1);
        assert(s.take(k + 1).drop_last() =~= s.take(k));
        lemma_decimal_nonneg(s.take(k));
    }
}

proof fn lemma_decimal_nonneg(s: Seq<u8>)
    requires
        forall|i: int| 0 <= i < s.len() ==> 48 <= #[trigger] s[i],
    ensures
        spec_decimal(s) >= 0,
    decreases s.len(),
{
    if s.len() > 0 {
        lemma_decimal_nonneg(s.drop_last());
    }
}

/// The packed version number: major in bits 16 and up, minor in bits 8 to
/// 15, patch in the low bits, as a C `int`.
pub fn version_num(major: u32, minor: u32, patch: u32) -> (r: i32)
    ensures
        r == (((major << 16u32) | (minor << 8u32)) | patch) as i32,
{
    (((major << 16u32) | (minor << 8u32)) | patch) as i32
}

} // verus!

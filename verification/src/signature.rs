//! Byte signatures: elements, the textual signature syntax and its parser.
//!
//! A signature is a sequence of elements; each element is a byte `value`
//! together with a `mask`, and matches a byte `b` exactly when
//! `b & mask == value`.  The textual syntax is a list of space separated
//! tokens: a single `?` is a wildcard, two characters are read as hex and
//! eight characters as binary, and inside the two latter forms any digit may
//! be replaced by `?`.
use vstd::prelude::*;
use vstd::string::StringSliceAdditionalSpecFns;

verus! {

/// One byte of a signature: the bits of `mask` that are set must hold the
/// corresponding bits of `value`, the others may hold anything.
#[derive(Clone, Copy, Debug, PartialEq, Eq, Structural)]
pub struct SignatureElement {
    value: u8,
    mask: u8,
}

impl SignatureElement {
    /// The byte value the element expects under its mask.
    pub closed spec fn spec_value(self) -> u8 {
        self.value
    }

    /// The bits of a byte that the element constrains.
    pub closed spec fn spec_mask(self) -> u8 {
        self.mask
    }

    /// An element built from `value` and `mask` keeps only the masked bits
    /// of the value.
    pub closed spec fn spec_from_value_mask(value: u8, mask: u8) -> SignatureElement {
        SignatureElement { value: value & mask, mask }
    }

    /// The element is well formed: its value has no bit outside its mask.
    /// Every constructor of this module yields such an element.
    pub open spec fn wf(self) -> bool {
        self.spec_value() & self.spec_mask() == self.spec_value()
    }

    /// The element accepts the byte `b`.
    pub open spec fn spec_matches(self, b: u8) -> bool {
        b & self.spec_mask() == self.spec_value()
    }

    /// Every bit of the byte is fixed.
    pub open spec fn spec_is_all(self) -> bool {
        self.spec_mask() == 0xFF
    }

    /// An element is determined by its value and its mask.
    pub proof fn lemma_same_value_mask(a: SignatureElement, b: SignatureElement)
        ensures
            (a == b) <==> (a.spec_value() == b.spec_value() && a.spec_mask() == b.spec_mask()),
    {
    }

    pub proof fn lemma_from_value_mask(value: u8, mask: u8)
        ensures
            Self::spec_from_value_mask(value, mask).spec_value() == value & mask,
            Self::spec_from_value_mask(value, mask).spec_mask() == mask,
            Self::spec_from_value_mask(value, mask).wf(),
    {
        assert((value & mask) & mask == value & mask) by (bit_vector);
    }

    /// The wildcard element (mask and value zero).
    pub fn new() -> (r: Self)
        ensures
            r.spec_value() == 0,
            r.spec_mask() == 0,
            r.wf(),
            r == Self::spec_from_value_mask(0, 0),
            forall|b: u8| #[trigger] r.spec_matches(b),
    {
        assert(forall|b: u8| #[trigger] (b & 0u8) == 0u8) by (bit_vector);
        assert(0u8 & 0u8 == 0u8) by (bit_vector);
        SignatureElement { value: 0, mask: 0 }
    }

    /// An element that fixes all eight bits to `value`.
    pub fn from_value(value: u8) -> (r: Self)
        ensures
            r.spec_value() == value,
            r.spec_mask() == 0xFF,
            r.wf(),
            r == Self::spec_from_value_mask(value, 0xFF),
    {
        assert(value & 0xFF == value) by (bit_vector);
        SignatureElement { value, mask: 0xFF }
    }

    /// An element that fixes the bits of `mask` to those of `value`; bits of
    /// `value` outside the mask are dropped.
    pub fn from_value_mask(value: u8, mask: u8) -> (r: Self)
        ensures
            r == Self::spec_from_value_mask(value, mask),
            r.spec_value() == value & mask,
            r.spec_mask() == mask,
            r.wf(),
    {
        proof {
            Self::lemma_from_value_mask(value, mask);
        }
        SignatureElement { value: value & mask, mask }
    }

    /// The element that matches any byte.
    pub fn wildcard() -> (r: Self)
        ensures
            r.spec_value() == 0,
            r.spec_mask() == 0,
            r.wf(),
            r == Self::spec_from_value_mask(0, 0),
            forall|b: u8| #[trigger] r.spec_matches(b),
    {
        assert(forall|b: u8| #[trigger] (b & 0u8) == 0u8) by (bit_vector);
        assert(0u8 & 0u8 == 0u8) by (bit_vector);
        SignatureElement { value: 0, mask: 0 }
    }

    #[verifier::when_used_as_spec(spec_value)]
    pub fn value(self) -> (r: u8)
        ensures
            r == self.spec_value(),
    {
        self.value
    }

    #[verifier::when_used_as_spec(spec_mask)]
    pub fn mask(self) -> (r: u8)
        ensures
            r == self.spec_mask(),
    {
        self.mask
    }

    /// All eight bits are fixed.
    pub fn is_all(self) -> (r: bool)
        ensures
            r == (self.spec_mask() == 0xFF),
    {
        self.mask == 0xFF
    }

    /// At least one bit is fixed.
    pub fn is_any(self) -> (r: bool)
        ensures
            r == (self.spec_mask() != 0),
    {
        self.mask != 0
    }

    /// No bit is fixed: the element matches every byte.
    pub fn is_none(self) -> (r: bool)
        ensures
            r == (self.spec_mask() == 0),
    {
        self.mask == 0
    }

    /// Whether `byte` agrees with the element on every masked bit.
    pub fn matches(self, byte: u8) -> (r: bool)
        ensures
            r == self.spec_matches(byte),
    {
        (byte & self.mask) == self.value
    }
}

impl Default for SignatureElement {
    fn default() -> (r: Self)
        ensures
            r.spec_value() == 0,
            r.spec_mask() == 0,
            r == Self::spec_from_value_mask(0, 0),
    {
        assert(0u8 & 0u8 == 0u8) by (bit_vector);
        SignatureElement { value: 0, mask: 0 }
    }
}

impl From<u8> for SignatureElement {
    fn from(value: u8) -> (r: Self) {
        Self::from_value(value)
    }
}

impl vstd::std_specs::convert::FromSpecImpl<u8> for SignatureElement {
    open spec fn obeys_from_spec() -> bool {
        true
    }

    open spec fn from_spec(value: u8) -> Self {
        Self::spec_from_value_mask(value, 0xFF)
    }
}

/// An owned signature.
pub type Signature = Vec<SignatureElement>;

/// Why a textual signature was refused.
#[derive(Clone, Copy, Debug, PartialEq, Eq, Structural)]
pub enum SignatureError {
    /// No element fixes all eight bits of its byte.
    MissingMaskedByte,
    /// A hex or binary token holds a character that is neither a digit of
    /// its base nor `?`.
    ElementParseError,
    /// The text holds no token.
    EmptySignature,
    /// A one-character token other than `?`.
    ExpectedWildcard,
    /// A token whose length is not 1, 2 or 8 bytes.
    InvalidTokenLength,
}

/// The text that describes each error.
pub fn error_message(err: SignatureError) -> (r: &'static str)
    ensures
        r@ == match err {
            SignatureError::MissingMaskedByte => "signature missing masked byte"@,
            SignatureError::ElementParseError => "signature element parse error"@,
            SignatureError::EmptySignature => "empty signature"@,
            SignatureError::ExpectedWildcard => "expected wildcard"@,
            SignatureError::InvalidTokenLength => "invalid token length"@,
        },
{
    match err {
        SignatureError::MissingMaskedByte => "signature missing masked byte",
        SignatureError::ElementParseError => "signature element parse error",
        SignatureError::EmptySignature => "empty signature",
        SignatureError::ExpectedWildcard => "expected wildcard",
        SignatureError::InvalidTokenLength => "invalid token length",
    }
}

pub type SignatureResult<T> = Result<T, SignatureError>;

/// `b` raised to the power `e`.
pub open spec fn pow_int(b: int, e: nat) -> int
    decreases e,
{
    if e == 0 {
        1
    } else {
        b * pow_int(b, (e - 1) as nat)
    }
}

/// The value of the ASCII digit `c` in `base`, as `u8::from_str_radix`
/// reads a one-character string: `0`-`9`, then `a`-`z` or `A`-`Z` for the
/// values ten and up, and only digits below `base` are accepted.
pub open spec fn spec_digit(c: u8, base: u8) -> Option<u8> {
    let d: int = if 48 <= c <= 57 {
        c - 48
    } else if 97 <= c <= 122 {
        c - 97 + 10
    } else if 65 <= c <= 90 {
        c - 65 + 10
    } else {
        99
    };
    if d < base {
        Some(d as u8)
    } else {
        None
    }
}

/// Reads the digits of a hex or binary token from left to right: each
/// character shifts value and mask one digit up; a digit adds its value to
/// the value and `base - 1` to the mask, a `?` adds nothing.  `None` when a
/// character is neither `?` nor a digit of `base`.
pub open spec fn spec_digits(w: Seq<u8>, base: u8) -> Option<(int, int)>
    decreases w.len(),
{
    if w.len() == 0 {
        Some((0, 0))
    } else {
        match spec_digits(w.drop_last(), base) {
            None => None,
            Some((v, m)) => {
                if w.last() == 63 {
                    Some((v * base, m * base))
                } else {
                    match spec_digit(w.last(), base) {
                        None => None,
                        Some(d) => Some((v * base + d, m * base + base - 1)),
                    }
                }
            },
        }
    }
}

/// The number of bytes before the first space (or the end).
pub open spec fn spec_word_len(s: Seq<u8>) -> nat
    decreases s.len(),
{
    if s.len() == 0 || s[0] == 32 {
        0
    } else {
        1 + spec_word_len(s.drop_first())
    }
}

/// What one token stands for: `?` alone is a wildcard, two bytes are hex,
/// eight bytes are binary.
pub open spec fn spec_parse_token(w: Seq<u8>) -> Result<SignatureElement, SignatureError> {
    if w.len() == 1 {
        if w[0] == 63 {
            Ok(SignatureElement::spec_from_value_mask(0, 0))
        } else {
            Err(SignatureError::ExpectedWildcard)
        }
    } else if w.len() == 2 || w.len() == 8 {
        let base: u8 = if w.len() == 2 {
            16
        } else {
            2
        };
        match spec_digits(w, base) {
            None => Err(SignatureError::ElementParseError),
            Some((v, m)) => Ok(SignatureElement::spec_from_value_mask(v as u8, m as u8)),
        }
    } else {
        Err(SignatureError::InvalidTokenLength)
    }
}

pub proof fn lemma_word_len_bounds(s: Seq<u8>)
    ensures
        spec_word_len(s) <= s.len(),
        s.len() > 0 && s[0] != 32 ==> spec_word_len(s) >= 1,
        forall|k: int| 0 <= k < spec_word_len(s) ==> s[k] != 32,
        spec_word_len(s) < s.len() ==> s[spec_word_len(s) as int] == 32,
    decreases s.len(),
{
    if s.len() == 0 || s[0] == 32 {
    } else {
        lemma_word_len_bounds(s.drop_first());
        assert forall|k: int| 0 <= k < spec_word_len(s) implies s[k] != 32 by {
            if k > 0 {
                assert(s[k] == s.drop_first()[k - 1]);
            }
        }
    }
}

/// A run of `m` non-space bytes followed by a space or the end is a word of
/// length `m`.
pub proof fn lemma_word_len_is(s: Seq<u8>, m: int)
    requires
        0 <= m <= s.len(),
        forall|k: int| 0 <= k < m ==> s[k] != 32,
        m == s.len() || s[m] == 32,
    ensures
        spec_word_len(s) == m,
    decreases m,
{
    if m > 0 {
        lemma_word_len_is(s.drop_first(), m - 1);
    }
}

/// The tokens of `s`, read from the left: the elements they stand for up to
/// the first token that is refused, and the reason it was refused.
pub open spec fn spec_parse_elements(s: Seq<u8>) -> (Seq<SignatureElement>, Option<SignatureError>)
    decreases s.len(),
{
    if s.len() == 0 {
        (seq![], None)
    } else if s[0] == 32 {
        spec_parse_elements(s.drop_first())
    } else {
        let n = spec_word_len(s);
        proof {
            lemma_word_len_bounds(s);
        }
        match spec_parse_token(s.take(n as int)) {
            Err(e) => (seq![], Some(e)),
            Ok(el) => {
                let r = spec_parse_elements(s.skip(n as int));
                (seq![el] + r.0, r.1)
            },
        }
    }
}

/// Some element fixes a whole byte.
pub open spec fn spec_has_full_byte(els: Seq<SignatureElement>) -> bool {
    exists|i: int| 0 <= i < els.len() && #[trigger] els[i].spec_is_all()
}

/// The signature that the text with bytes `s` stands for, or why it is
/// refused: the first refused token, else an empty text, else a signature
/// without a fully masked byte.
pub open spec fn spec_parse_signature(s: Seq<u8>) -> Result<Seq<SignatureElement>, SignatureError> {
    let (els, err) = spec_parse_elements(s);
    match err {
        Some(e) => Err(e),
        None => {
            if els.len() == 0 {
                Err(SignatureError::EmptySignature)
            } else if !spec_has_full_byte(els) {
                Err(SignatureError::MissingMaskedByte)
            } else {
                Ok(els)
            }
        },
    }
}

/// Once a prefix of a token is refused, the whole token is.
pub proof fn lemma_digits_prefix_none(w: Seq<u8>, k: int, base: u8)
    requires
        0 <= k <= w.len(),
        spec_digits(w.take(k), base) is None,
    ensures
        spec_digits(w, base) is None,
    decreases w.len() - k,
{
    if k < w.len() {
        assert(w.take(k + 1).drop_last() =~= w.take(k));
        lemma_digits_prefix_none(w, k + 1, base);
    } else {
        assert(w.take(k) =~= w);
    }
}

/// The value of one digit character in `base`.
pub fn parse_int(ch: u8, base: u8) -> (r: Option<u8>)
    requires
        2 <= base <= 36,
    ensures
        r == spec_digit(ch, base),
{
    let d: u8 = if 48 <= ch && ch <= 57 {
        ch - 48
    } else if 97 <= ch && ch <= 122 {
        ch - 97 + 10
    } else if 65 <= ch && ch <= 90 {
        ch - 65 + 10
    } else {
        99
    };
    if d < base {
        Some(d)
    } else {
        None
    }
}

/// Reads a hex token (two bytes, `base` 16) or a binary token (eight
/// bytes, `base` 2) into an element.
pub fn parse_signature_element(word: &[u8], base: u8) -> (r: Option<SignatureElement>)
    requires
        (word@.len() == 2 && base == 16) || (word@.len() == 8 && base == 2),
    ensures
        r == match spec_digits(word@, base) {
            None => None,
            Some((v, m)) => Some(SignatureElement::spec_from_value_mask(v as u8, m as u8)),
        },
{
    let mut value: u8 = 0;
    let mut mask: u8 = 0;
    let len = word.len();
    let mut i: usize = 0;
    assert(word@.take(0) =~= Seq::<u8>::empty());
    assert(pow_int(16, 2) == 256 && pow_int(2, 8) == 256) by {
        reveal_with_fuel(pow_int, 9);
    }
    assert(pow_int(base as int, 0) == 1);
    while i < len
        invariant
            len == word@.len(),
            (len == 2 && base == 16) || (len == 8 && base == 2),
            0 <= i <= len,
            spec_digits(word@.take(i as int), base) == Some((value as int, mask as int)),
            value < pow_int(base as int, i as nat),
            mask < pow_int(base as int, i as nat),
            pow_int(base as int, i as nat) * pow_int(base as int, (len - i) as nat) == 256,
        decreases len - i,
    {
        let ch = word[i];
        assert(word@.take(i + 1).drop_last() =~= word@.take(i as int));
        assert(word@.take(i + 1).last() == ch);
        let ghost p = pow_int(base as int, i as nat);
        let ghost q = pow_int(base as int, (len - i) as nat);
        assert(pow_int(base as int, (i + 1) as nat) == base * p);
        assert(q == base * pow_int(base as int, (len - i - 1) as nat));
        assert(p >= 1 && base * p <= 256) by (nonlinear_arith)
            requires
                p * q == 256,
                q == base * pow_int(base as int, (len - i - 1) as nat),
                value < p,
                base >= 2,
        {
            assert(p > 0);
            assert(q > 0);
        }
        assert(value * base + base - 1 < 256) by (nonlinear_arith)
            requires
                value < p,
                base * p <= 256,
                base >= 2,
        ;
        assert(mask * base + base - 1 < 256) by (nonlinear_arith)
            requires
                mask < p,
                base * p <= 256,
                base >= 2,
        ;
        value = value * base;
        mask = mask * base;
        if ch != 63 {
            let digit = match parse_int(ch, base) {
                Some(d) => d,
                None => {
                    proof {
                        lemma_digits_prefix_none(word@, i + 1, base);
                    }
                    return None;
                },
            };
            value = value + digit;
            mask = mask + (base - 1);
        }
        assert(value < base * p && mask < base * p) by (nonlinear_arith)
            requires
                value <= (base * p - base) + base - 1,
                mask <= (base * p - base) + base - 1,
        ;
        assert(pow_int(base as int, (i + 1) as nat) * pow_int(base as int, (len - i - 1) as nat) == 256)
            by (nonlinear_arith)
            requires
                pow_int(base as int, (i + 1) as nat) == base * p,
                q == base * pow_int(base as int, (len - i - 1) as nat),
                p * q == 256,
        ;
        i = i + 1;
    }
    assert(word@.take(len as int) =~= word@);
    Some(SignatureElement::from_value_mask(value, mask))
}


/// Reads one token (a run of bytes without spaces).
pub fn parse_token(word: &[u8]) -> (r: SignatureResult<SignatureElement>)
    ensures
        r == spec_parse_token(word@),
{
    let wlen = word.len();
    if wlen == 1 {
        if word[0] != 63 {
            return Err(SignatureError::ExpectedWildcard);
        }
        Ok(SignatureElement::wildcard())
    } else if wlen == 2 || wlen == 8 {
        let base: u8 = if wlen == 2 {
            16
        } else {
            2
        };
        match parse_signature_element(word, base) {
            Some(e) => Ok(e),
            None => Err(SignatureError::ElementParseError),
        }
    } else {
        Err(SignatureError::InvalidTokenLength)
    }
}

/// Parses the text `text` and appends its elements to `sig`.
///
/// Tokens are read from the left; every accepted token's element is
/// appended as soon as it is read, so when a token is refused the elements
/// before it stay appended.  On success the number of elements appended is
/// returned.
pub fn parse_signature_to(sig: &mut Vec<SignatureElement>, text: &str) -> (r: SignatureResult<usize>)
    ensures
        final(sig)@ == old(sig)@ + spec_parse_elements(text.spec_bytes()).0,
        match spec_parse_signature(text.spec_bytes()) {
            Ok(els) => r == Ok::<usize, SignatureError>(els.len() as usize),
            Err(e) => r == Err::<usize, SignatureError>(e),
        },
{
    let bytes = text.as_bytes();
    let n = bytes.len();
    let ghost s = bytes@;
    let ghost start = sig@;
    let ghost mut pushed: Seq<SignatureElement> = seq![];
    let mut i: usize = 0;
    let mut written: usize = 0;
    let mut contains_byte = false;
    assert(s.skip(0) =~= s);
    while i < n
        invariant
            n == s.len(),
            s == bytes@,
            s == text.spec_bytes(),
            0 <= i <= n,
            sig@ == start + pushed,
            start == old(sig)@,
            written == pushed.len(),
            written <= i,
            contains_byte == spec_has_full_byte(pushed),
            spec_parse_elements(s) == (pushed + spec_parse_elements(s.skip(i as int)).0, spec_parse_elements(s.skip(i as int)).1),
        decreases n - i,
    {
        let ghost rest = s.skip(i as int);
        if bytes[i] == 32 {
            assert(rest.drop_first() =~= s.skip(i + 1));
            i = i + 1;
        } else {
            let mut j: usize = i;
            while j < n && bytes[j] != 32
                invariant
                    n == s.len(),
                    s == bytes@,
                    i <= j <= n,
                    forall|k: int| i <= k < j ==> s[k] != 32,
                decreases n - j,
            {
                j = j + 1;
            }
            let wlen = j - i;
            proof {
                lemma_word_len_is(rest, wlen as int);
                assert(rest.take(wlen as int) =~= s.subrange(i as int, j as int));
                assert(rest.skip(wlen as int) =~= s.skip(j as int));
            }
            let word = &bytes[i..j];
            assert(word@ =~= s.subrange(i as int, j as int));
            assert(rest.len() > 0 && rest[0] == s[i as int]);
            let ghost tok = spec_parse_token(word@);
            assert(spec_parse_elements(rest) == match tok {
                Err(e) => (Seq::<SignatureElement>::empty(), Some(e)),
                Ok(el) => (seq![el] + spec_parse_elements(s.skip(j as int)).0, spec_parse_elements(s.skip(j as int)).1),
            });
            assert(pushed + Seq::<SignatureElement>::empty() =~= pushed);
            let element = match parse_token(word) {
                Ok(e) => e,
                Err(e) => {
                    return Err(e);
                },
            };
            assert(tok == Ok::<SignatureElement, SignatureError>(element));
            assert(pushed.push(element) + spec_parse_elements(s.skip(j as int)).0 =~= pushed + (seq![element] + spec_parse_elements(s.skip(j as int)).0));
            proof {
                let old_pushed = pushed;
                pushed = pushed.push(element);
                assert(spec_has_full_byte(pushed) == (spec_has_full_byte(old_pushed) || element.spec_is_all())) by {
                    if element.spec_is_all() {
                        assert(pushed[old_pushed.len() as int] == element);
                    }
                    if spec_has_full_byte(old_pushed) {
                        let k = choose|k: int| 0 <= k < old_pushed.len() && #[trigger] old_pushed[k].spec_is_all();
                        assert(pushed[k] == old_pushed[k]);
                    }
                    if spec_has_full_byte(pushed) {
                        let k = choose|k: int| 0 <= k < pushed.len() && #[trigger] pushed[k].spec_is_all();
                        if k < old_pushed.len() {
                            assert(old_pushed[k] == pushed[k]);
                        }
                    }
                }
            }
            contains_byte = contains_byte || element.is_all();
            sig.push(element);
            written = written + 1;
            i = j;
        }
    }
    assert(s.skip(n as int) =~= Seq::<u8>::empty());
    assert(pushed + Seq::<SignatureElement>::empty() =~= pushed);
    if written == 0 {
        return Err(SignatureError::EmptySignature);
    }
    if !contains_byte {
        return Err(SignatureError::MissingMaskedByte);
    }
    Ok(written)
}

/// Parses a textual signature (see the module documentation).
pub fn parse_signature(text: &str) -> (r: SignatureResult<Signature>)
    ensures
        match spec_parse_signature(text.spec_bytes()) {
            Ok(els) => r matches Ok(v) && v@ == els,
            Err(e) => r == Err::<Signature, SignatureError>(e),
        },
        r matches Ok(v) ==> v@.len() > 0 && spec_has_full_byte(v@),
{
    let mut sig: Signature = Vec::new();
    match parse_signature_to(&mut sig, text) {
        Ok(_) => Ok(sig),
        Err(e) => Err(e),
    }
}


/// The upper-case hex digit for `d` (below 16).
pub open spec fn spec_hex_char(d: u8) -> char {
    if d < 10 {
        (48 + d) as char
    } else {
        (55 + d) as char
    }
}

/// One position of the binary form: the bit `bit` of the value where the
/// mask fixes it, `?` where it does not.
pub open spec fn spec_bin_char(value: u8, mask: u8, bit: u8) -> char {
    if mask & (1u8 << bit) != 0 {
        if value & (1u8 << bit) != 0 {
            '1'
        } else {
            '0'
        }
    } else {
        '?'
    }
}

/// How one element is written: in hex when a nibble of the mask is full
/// (with `?` for a nibble that is not), as `?` when nothing is fixed, and
/// in binary (most significant bit first) otherwise.
pub open spec fn spec_element_text(e: SignatureElement) -> Seq<char> {
    let m = e.spec_mask();
    let v = e.spec_value();
    let a = m & 0xF0 == 0xF0;
    let b = m & 0x0F == 0x0F;
    if a || b {
        seq![
            if a {
                spec_hex_char((v >> 4u8) & 0x0F)
            } else {
                '?'
            },
            if b {
                spec_hex_char(v & 0x0F)
            } else {
                '?'
            },
        ]
    } else if m == 0 {
        seq!['?']
    } else {
        Seq::new(8, |k: int| spec_bin_char(v, m, (7 - k) as u8))
    }
}

/// The text of a signature: the elements' texts separated by single spaces.
pub open spec fn spec_to_string(sig: Seq<SignatureElement>) -> Seq<char>
    decreases sig.len(),
{
    if sig.len() == 0 {
        seq![]
    } else if sig.len() == 1 {
        spec_element_text(sig[0])
    } else {
        spec_element_text(sig[0]) + seq![' '] + spec_to_string(sig.drop_first())
    }
}

pub proof fn lemma_to_string_push(sig: Seq<SignatureElement>, e: SignatureElement)
    ensures
        spec_to_string(sig.push(e)) == if sig.len() == 0 {
            spec_element_text(e)
        } else {
            spec_to_string(sig) + seq![' '] + spec_element_text(e)
        },
    decreases sig.len(),
{
    if sig.len() == 0 {
        assert(sig.push(e)[0] == e);
    } else if sig.len() == 1 {
        assert(sig.push(e).drop_first() =~= seq![e]);
        assert(spec_to_string(seq![e]) == spec_element_text(e));
    } else {
        assert(sig.push(e).drop_first() =~= sig.drop_first().push(e));
        lemma_to_string_push(sig.drop_first(), e);
        assert(spec_to_string(sig.push(e)) =~= spec_to_string(sig) + seq![' '] + spec_element_text(e));
    }
}

/// `String::push`: the string afterwards holds its old characters followed
/// by `c`, as the standard library documents.
#[verifier::external_body]
fn string_push(s: &mut String, c: char)
    ensures
        final(s)@ == old(s)@.push(c),
{
    s.push(c);
}

fn hex_char(d: u8) -> (c: char)
    requires
        d < 16,
    ensures
        c == spec_hex_char(d),
{
    if d < 10 {
        (48 + d) as char
    } else {
        (55 + d) as char
    }
}

/// Appends the text of one element.
fn push_element_text(ret: &mut String, element: SignatureElement)
    ensures
        final(ret)@ == old(ret)@ + spec_element_text(element),
{
    let m = element.mask();
    let v = element.value();
    let a = (m & 0xF0) == 0xF0;
    let b = (m & 0x0F) == 0x0F;
    if a || b {
        assert((v >> 4u8) & 0x0F < 16 && v & 0x0F < 16) by (bit_vector);
        let c0 = if a {
            hex_char((v >> 4) & 0x0F)
        } else {
            '?'
        };
        let c1 = if b {
            hex_char(v & 0x0F)
        } else {
            '?'
        };
        string_push(ret, c0);
        string_push(ret, c1);
        assert(ret@ =~= old(ret)@ + spec_element_text(element));
    } else if m == 0 {
        string_push(ret, '?');
        assert(ret@ =~= old(ret)@ + spec_element_text(element));
    } else {
        let ghost start = ret@;
        let mut k: u8 = 0;
        while k < 8
            invariant
                0 <= k <= 8,
                m == element.spec_mask(),
                v == element.spec_value(),
                ret@ =~= start + Seq::new(k as nat, |t: int| spec_bin_char(v, m, (7 - t) as u8)),
            decreases 8 - k,
        {
            let bit: u8 = 7 - k;
            let c = if m & (1u8 << bit) != 0 {
                if v & (1u8 << bit) != 0 {
                    '1'
                } else {
                    '0'
                }
            } else {
                '?'
            };
            string_push(ret, c);
            k = k + 1;
            assert(ret@ =~= start + Seq::new(k as nat, |t: int| spec_bin_char(v, m, (7 - t) as u8)));
        }
        assert(ret@ =~= old(ret)@ + spec_element_text(element));
    }
}

/// Writes a signature in the text syntax: each element in hex, as `?`, or
/// in binary, separated by single spaces.
pub fn to_string(sig: &[SignatureElement]) -> (r: String)
    ensures
        r@ == spec_to_string(sig@),
{
    let mut ret = String::new();
    let n = sig.len();
    let mut i: usize = 0;
    assert(sig@.take(0) =~= Seq::<SignatureElement>::empty());
    while i < n
        invariant
            n == sig@.len(),
            0 <= i <= n,
            ret@ == spec_to_string(sig@.take(i as int)),
        decreases n - i,
    {
        proof {
            assert(sig@.take(i + 1) =~= sig@.take(i as int).push(sig@[i as int]));
            lemma_to_string_push(sig@.take(i as int), sig@[i as int]);
        }
        if i > 0 {
            string_push(&mut ret, ' ');
        }
        push_element_text(&mut ret, sig[i]);
        i = i + 1;
    }
    assert(sig@.take(n as int) =~= sig@);
    ret
}


/// Writing the element as text keeps its mask: when one nibble of the mask
/// is full, the other is full or empty.  Elements read from hex tokens and
/// from `?` always are; a binary token such as `1111??01` is not.
pub open spec fn spec_text_exact(e: SignatureElement) -> bool {
    let m = e.spec_mask();
    let a = m & 0xF0 == 0xF0;
    let b = m & 0x0F == 0x0F;
    (a ==> (b || m & 0x0F == 0)) && (b ==> (a || m & 0xF0 == 0))
}

/// The bytes of an ASCII text.
pub open spec fn spec_ascii_bytes(t: Seq<char>) -> Seq<u8> {
    t.map_values(|c: char| c as u8)
}

proof fn lemma_hex_digit(d: u8)
    requires
        d < 16,
    ensures
        spec_digit(spec_hex_char(d) as u8, 16) == Some(d),
        spec_hex_char(d) as u8 != 63,
        spec_hex_char(d) as u8 != 32,
{
}

/// After the first `k` characters of an element's binary text, the digits
/// read so far are the top `k` bits of value and mask.
proof fn lemma_binary_prefix(e: SignatureElement, k: int)
    requires
        0 <= k <= 8,
        e.wf(),
    ensures
        ({
            let v = e.spec_value();
            let m = e.spec_mask();
            let t = spec_ascii_bytes(Seq::new(8, |j: int| spec_bin_char(v, m, (7 - j) as u8)));
            spec_digits(t.take(k), 2) == Some(((v >> ((8 - k) as u8)) as int, (m >> ((8 - k) as u8)) as int))
        }),
    decreases k,
{
    let v = e.spec_value();
    let m = e.spec_mask();
    let t = spec_ascii_bytes(Seq::new(8, |j: int| spec_bin_char(v, m, (7 - j) as u8)));
    if k == 0 {
        assert(t.take(0) =~= Seq::<u8>::empty());
        assert(v >> 8u8 == 0 && m >> 8u8 == 0) by (bit_vector);
    } else {
        lemma_binary_prefix(e, k - 1);
        assert(t.take(k).drop_last() =~= t.take(k - 1));
        let bit = (8 - k) as u8;
        let c = spec_bin_char(v, m, bit);
        assert(t.take(k).last() == c as u8);
        let sh = (8 - (k - 1)) as u8;
        assert(sh == bit + 1);
        let pv: u8 = v >> sh;
        let pm: u8 = m >> sh;
        assert(v & m == v);
        if m & (1u8 << bit) != 0 {
            if v & (1u8 << bit) != 0 {
                assert(c == '1');
                assert((v >> bit) as int == pv * 2 + 1 && (m >> bit) as int == pm * 2 + 1) by (bit_vector)
                    requires
                        bit < 8,
                        sh == bit + 1,
                        pv == v >> sh,
                        pm == m >> sh,
                        m & (1u8 << bit) != 0,
                        v & (1u8 << bit) != 0,
                ;
            } else {
                assert(c == '0');
                assert((v >> bit) as int == pv * 2 && (m >> bit) as int == pm * 2 + 1) by (bit_vector)
                    requires
                        bit < 8,
                        sh == bit + 1,
                        pv == v >> sh,
                        pm == m >> sh,
                        m & (1u8 << bit) != 0,
                        v & (1u8 << bit) == 0,
                ;
            }
        } else {
            assert(c == '?');
            assert((v >> bit) as int == pv * 2 && (m >> bit) as int == pm * 2) by (bit_vector)
                requires
                    bit < 8,
                    sh == bit + 1,
                    pv == v >> sh,
                    pm == m >> sh,
                    m & (1u8 << bit) == 0,
                    v & m == v,
            ;
        }
    }
}

/// An exact, well formed element's text is one token that reads back as
/// the element.
proof fn lemma_element_text_token(e: SignatureElement)
    requires
        e.wf(),
        spec_text_exact(e),
    ensures
        ({
            let t = spec_ascii_bytes(spec_element_text(e));
            &&& t.len() == 1 || t.len() == 2 || t.len() == 8
            &&& forall|k: int| 0 <= k < t.len() ==> t[k] != 32
            &&& spec_parse_token(t) == Ok::<SignatureElement, SignatureError>(e)
        }),
{
    let v = e.spec_value();
    let m = e.spec_mask();
    let a = m & 0xF0 == 0xF0;
    let b = m & 0x0F == 0x0F;
    let t = spec_ascii_bytes(spec_element_text(e));
    assert(v & m == v);
    if a || b {
        let hi = (v >> 4u8) & 0x0F;
        let lo = v & 0x0F;
        assert(hi < 16 && lo < 16) by (bit_vector)
            requires
                hi == (v >> 4u8) & 0x0F,
                lo == v & 0x0F,
        ;
        lemma_hex_digit(hi);
        lemma_hex_digit(lo);
        assert(t.len() == 2);
        assert(t.drop_last().drop_last() =~= Seq::<u8>::empty());
        assert(t.drop_last() =~= seq![t[0]]);
        assert(seq![t[0]].drop_last() =~= Seq::<u8>::empty());
        let v1: int = if a {
            hi as int
        } else {
            0
        };
        let m1: int = if a {
            15
        } else {
            0
        };
        assert(t[0] == (if a { spec_hex_char(hi) } else { '?' }) as u8);
        assert(t[1] == (if b { spec_hex_char(lo) } else { '?' }) as u8);
        assert(spec_digits(seq![t[0]].drop_last(), 16) == Some((0int, 0int)));
        assert(seq![t[0]].last() == t[0]);
        assert(spec_digits(t.drop_last(), 16) == Some((v1, m1)));
        assert(t.last() == t[1]);
        let v2: int = if b {
            v1 * 16 + lo
        } else {
            v1 * 16
        };
        let m2: int = if b {
            m1 * 16 + 15
        } else {
            m1 * 16
        };
        assert(spec_digits(t, 16) == Some((v2, m2)));
        let va = if a {
            hi
        } else {
            0u8
        };
        let vb = if b {
            lo
        } else {
            0u8
        };
        let mm: u8 = if a && b {
            255u8
        } else if a {
            240u8
        } else if b {
            15u8
        } else {
            0u8
        };
        assert(v2 == va as int * 16 + vb as int);
        assert(m2 == mm as int);
        let w: u8 = (va as int * 16 + vb as int) as u8;
        assert(va as int * 16 + vb as int <= 255) by (bit_vector)
            requires
                hi == (v >> 4u8) & 0x0F,
                lo == v & 0x0F,
                va == (if a { hi } else { 0u8 }),
                vb == (if b { lo } else { 0u8 }),
        ;
        assert(w & mm == v && mm == m) by (bit_vector)
            requires
                v & m == v,
                a == (m & 0xF0 == 0xF0),
                b == (m & 0x0F == 0x0F),
                a || b,
                a ==> (b || m & 0x0F == 0),
                b ==> (a || m & 0xF0 == 0),
                hi == (v >> 4u8) & 0x0F,
                lo == v & 0x0F,
                va == (if a { hi } else { 0u8 }),
                vb == (if b { lo } else { 0u8 }),
                mm == (if a && b { 255u8 } else if a { 240u8 } else if b { 15u8 } else { 0u8 }),
                w == (va as int * 16 + vb as int) as u8,
        ;
    } else if m == 0 {
        assert(v & 0u8 == 0u8) by (bit_vector);
        assert(t.len() == 1);
        assert(t[0] == 63);
    } else {
        let bits = Seq::new(8, |j: int| spec_bin_char(v, m, (7 - j) as u8));
        assert(spec_element_text(e) == bits);
        assert(t.len() == 8);
        assert forall|k: int| 0 <= k < t.len() implies t[k] != 32 by {
            let c = spec_bin_char(v, m, (7 - k) as u8);
            assert(c == '0' || c == '1' || c == '?');
        }
        lemma_binary_prefix(e, 8);
        assert(t.take(8) =~= t);
        assert(v >> 0u8 == v && m >> 0u8 == m) by (bit_vector);
        assert((v as u8) & (m as u8) == v);
    }
}

proof fn lemma_ascii_bytes_concat(x: Seq<char>, y: Seq<char>)
    ensures
        spec_ascii_bytes(x + y) =~= spec_ascii_bytes(x) + spec_ascii_bytes(y),
{
}

/// The bytes of the text of well formed, exact elements parse back to them.
proof fn lemma_parse_elements_of_text(sig: Seq<SignatureElement>)
    requires
        sig.len() > 0,
        forall|i: int| 0 <= i < sig.len() ==> (#[trigger] sig[i]).wf() && spec_text_exact(sig[i]),
    ensures
        spec_parse_elements(spec_ascii_bytes(spec_to_string(sig))) == (sig, None::<SignatureError>),
    decreases sig.len(),
{
    let e = sig[0];
    lemma_element_text_token(e);
    let t0 = spec_ascii_bytes(spec_element_text(e));
    let s = spec_ascii_bytes(spec_to_string(sig));
    if sig.len() == 1 {
        assert(s == t0);
        lemma_word_len_is(s, t0.len() as int);
        assert(s.take(t0.len() as int) =~= t0);
        assert(s.skip(t0.len() as int) =~= Seq::<u8>::empty());
        assert(s[0] != 32);
        assert(spec_parse_elements(s) == (seq![e] + spec_parse_elements(Seq::<u8>::empty()).0, spec_parse_elements(Seq::<u8>::empty()).1));
        assert(seq![e] + Seq::<SignatureElement>::empty() =~= sig);
    } else {
        let rest = sig.drop_first();
        assert forall|i: int| 0 <= i < rest.len() implies (#[trigger] rest[i]).wf() && spec_text_exact(rest[i]) by {
            assert(rest[i] == sig[i + 1]);
        }
        lemma_parse_elements_of_text(rest);
        let r = spec_ascii_bytes(spec_to_string(rest));
        lemma_ascii_bytes_concat(spec_element_text(e) + seq![' '], spec_to_string(rest));
        lemma_ascii_bytes_concat(spec_element_text(e), seq![' ']);
        assert(spec_ascii_bytes(seq![' ']) =~= seq![32u8]);
        assert(s =~= t0 + seq![32u8] + r);
        lemma_word_len_is(s, t0.len() as int);
        assert(s.take(t0.len() as int) =~= t0);
        assert(s.skip(t0.len() as int) =~= seq![32u8] + r);
        assert((seq![32u8] + r).drop_first() =~= r);
        assert(s[0] == t0[0]);
        assert(spec_parse_elements(seq![32u8] + r) == spec_parse_elements(r));
        assert(spec_parse_elements(s) == (seq![e] + spec_parse_elements(r).0, spec_parse_elements(r).1));
        assert(seq![e] + rest =~= sig);
    }
}

/// Writing a signature as text and parsing the text gives the signature
/// back, for every signature whose elements are well formed and written
/// exactly and which holds a fully masked byte.
pub proof fn lemma_parse_to_string_roundtrip(sig: Seq<SignatureElement>)
    requires
        sig.len() > 0,
        spec_has_full_byte(sig),
        forall|i: int| 0 <= i < sig.len() ==> (#[trigger] sig[i]).wf() && spec_text_exact(sig[i]),
    ensures
        spec_parse_signature(vstd::utf8::encode_utf8(spec_to_string(sig))) == Ok::<Seq<SignatureElement>, SignatureError>(sig),
{
    lemma_parse_elements_of_text(sig);
    lemma_to_string_ascii(sig);
    vstd::utf8::is_ascii_chars_encode_utf8(spec_to_string(sig));
    assert(vstd::utf8::encode_utf8(spec_to_string(sig)) =~= spec_ascii_bytes(spec_to_string(sig)));
}

/// The text of a signature is ASCII.
pub proof fn lemma_to_string_ascii(sig: Seq<SignatureElement>)
    ensures
        vstd::utf8::is_ascii_chars(spec_to_string(sig)),
    decreases sig.len(),
{
    if sig.len() > 0 {
        let e = sig[0];
        let t = spec_element_text(e);
        let v = e.spec_value();
        let m = e.spec_mask();
        assert((v >> 4u8) & 0x0F < 16 && v & 0x0F < 16) by (bit_vector);
        assert(vstd::utf8::is_ascii_chars(t));
        if sig.len() > 1 {
            lemma_to_string_ascii(sig.drop_first());
            let all = spec_to_string(sig);
            assert(all == t + seq![' '] + spec_to_string(sig.drop_first()));
            assert forall|i: int| 0 <= i < all.len() implies '\0' <= #[trigger] all[i] <= '\u{7f}' by {
                if i < t.len() {
                    assert(all[i] == t[i]);
                } else if i == t.len() {
                    assert(all[i] == ' ');
                } else {
                    assert(all[i] == spec_to_string(sig.drop_first())[i - t.len() - 1]);
                }
            }
        }
    }
}


/// The signature that matches exactly the bytes of `bytes`.
pub fn bytes_to_signature<const N: usize>(bytes: &[u8; N]) -> (r: [SignatureElement; N])
    ensures
        r@.len() == N,
        forall|i: int| 0 <= i < N ==> #[trigger] r@[i] == SignatureElement::spec_from_value_mask(bytes@[i], 0xFF),
{
    let mut result = [SignatureElement::wildcard();N];
    let mut i: usize = 0;
    while i < N
        invariant
            0 <= i <= N,
            result@.len() == N,
            forall|k: int| 0 <= k < i ==> #[trigger] result@[k] == SignatureElement::spec_from_value_mask(bytes@[k], 0xFF),
        decreases N - i,
    {
        result[i] = SignatureElement::from_value(bytes[i]);
        i = i + 1;
    }
    result
}

/// The signature that matches exactly the bytes of an object, given as the
/// bytes of its memory.
pub fn object_to_signature(bytes: &[u8]) -> (r: Signature)
    ensures
        r@ == bytes@.map_values(|b: u8| SignatureElement::spec_from_value_mask(b, 0xFF)),
{
    let n = bytes.len();
    let mut sig: Signature = Vec::new();
    let mut i: usize = 0;
    while i < n
        invariant
            n == bytes@.len(),
            0 <= i <= n,
            sig@ =~= bytes@.take(i as int).map_values(|b: u8| SignatureElement::spec_from_value_mask(b, 0xFF)),
        decreases n - i,
    {
        sig.push(SignatureElement::from_value(bytes[i]));
        i = i + 1;
    }
    assert(bytes@.take(n as int) =~= bytes@);
    sig
}

/// The signature that matches exactly the bytes of the text; an empty text
/// is refused.
pub fn string_to_signature(text: &str) -> (r: SignatureResult<Signature>)
    ensures
        text.spec_bytes().len() == 0 ==> r == Err::<Signature, SignatureError>(SignatureError::EmptySignature),
        text.spec_bytes().len() > 0 ==> (r matches Ok(v) && v@ == text.spec_bytes().map_values(
            |b: u8| SignatureElement::spec_from_value_mask(b, 0xFF),
        )),
{
    let bytes = text.as_bytes();
    if bytes.len() == 0 {
        return Err(SignatureError::EmptySignature);
    }
    Ok(object_to_signature(bytes))
}

/// Parses a textual signature into a fixed-size array: the parsed elements
/// first, wildcards after them.  A signature longer than `N` does not fit
/// and is outside the contract.
pub fn compile_signature<const N: usize>(text: &str) -> (r: SignatureResult<[SignatureElement; N]>)
    requires
        spec_parse_signature(text.spec_bytes()) matches Ok(els) ==> els.len() <= N,
    ensures
        match spec_parse_signature(text.spec_bytes()) {
            Ok(els) => r matches Ok(a) && a@ == els + Seq::new(
                (N - els.len()) as nat,
                |k: int| SignatureElement::spec_from_value_mask(0, 0),
            ),
            Err(e) => r == Err::<[SignatureElement; N], SignatureError>(e),
        },
{
    let mut sig: Signature = Vec::new();
    let size = match parse_signature_to(&mut sig, text) {
        Ok(size) => size,
        Err(e) => {
            return Err(e);
        },
    };
    let ghost els = sig@;
    let mut result = [SignatureElement::wildcard();N];
    let mut i: usize = 0;
    while i < size
        invariant
            size == sig@.len(),
            size <= N,
            0 <= i <= size,
            result@.len() == N,
            forall|k: int| 0 <= k < i ==> #[trigger] result@[k] == sig@[k],
            forall|k: int| i <= k < N ==> #[trigger] result@[k] == SignatureElement::spec_from_value_mask(0, 0),
        decreases size - i,
    {
        result[i] = sig[i];
        i = i + 1;
    }
    assert(result@ =~= sig@ + Seq::new((N - sig@.len()) as nat, |k: int| SignatureElement::spec_from_value_mask(0, 0)));
    Ok(result)
}

/// A refused token is refused for its characters or its length, never for
/// the two checks on the whole signature.
pub proof fn lemma_token_error_kinds(s: Seq<u8>)
    ensures
        spec_parse_elements(s).1 matches Some(e) ==> (e == SignatureError::ElementParseError
            || e == SignatureError::ExpectedWildcard || e == SignatureError::InvalidTokenLength),
    decreases s.len(),
{
    if s.len() == 0 {
    } else if s[0] == 32 {
        lemma_token_error_kinds(s.drop_first());
    } else {
        lemma_word_len_bounds(s);
        lemma_token_error_kinds(s.skip(spec_word_len(s) as int));
    }
}

/// Reads the tokens of a text into (value, mask) pairs as the compile-time
/// signature expansion does: an empty list when any token is refused, the
/// pairs of all tokens otherwise (the emptiness and full-byte checks are
/// left to the caller).
pub fn parse_str(text: &str) -> (r: Vec<(u8, u8)>)
    ensures
        spec_parse_elements(text.spec_bytes()).1 is Some ==> r@.len() == 0,
        spec_parse_elements(text.spec_bytes()).1 is None ==> r@ == spec_parse_elements(text.spec_bytes()).0.map_values(
            |e: SignatureElement| (e.spec_value(), e.spec_mask()),
        ),
{
    let mut sig: Signature = Vec::new();
    let res = parse_signature_to(&mut sig, text);
    proof {
        lemma_token_error_kinds(text.spec_bytes());
    }
    let mut out: Vec<(u8, u8)> = Vec::new();
    match res {
        Err(SignatureError::ElementParseError) | Err(SignatureError::ExpectedWildcard) | Err(SignatureError::InvalidTokenLength) => {
            return out;
        },
        _ => {},
    }
    let n = sig.len();
    let mut i: usize = 0;
    while i < n
        invariant
            n == sig@.len(),
            0 <= i <= n,
            out@ =~= sig@.take(i as int).map_values(|e: SignatureElement| (e.spec_value(), e.spec_mask())),
        decreases n - i,
    {
        let e = sig[i];
        out.push((e.value(), e.mask()));
        i = i + 1;
    }
    assert(sig@.take(n as int) =~= sig@);
    out
}


/// What the constructors match: a fixed byte matches only itself, a
/// wildcard matches every byte, and a masked element matches the bytes
/// that agree with its value on its mask.
pub proof fn lemma_element_matching(value: u8, mask: u8, b: u8)
    ensures
        SignatureElement::spec_from_value_mask(value, 0xFF).spec_matches(b) <==> b == value,
        SignatureElement::spec_from_value_mask(0, 0).spec_matches(b),
        SignatureElement::spec_from_value_mask(value, mask).spec_matches(b) <==> b & mask == value & mask,
{
    assert(b & 0xFFu8 == b && value & 0xFFu8 == value && b & 0u8 == 0u8 && 0u8 & 0u8 == 0u8) by (bit_vector);
}

/// The nibbles of a byte against a value built from two hex digits.
proof fn lemma_nibble_match(b: u8, d1: u8, d2: u8)
    by (bit_vector)
    requires
        d1 < 16,
        d2 < 16,
    ensures
        (b & 0xFF == ((d1 * 16 + d2) as u8 & 0xFF)) <==> (b >> 4 == d1 && b & 0xF == d2),
        (b & 0x0F == (d2 & 0x0F)) <==> (b & 0xF == d2),
        (b & 0xF0 == ((d1 * 16) as u8 & 0xF0)) <==> (b >> 4 == d1),
        b & 0 == 0u8 & 0,
{
}

/// A two-character hex token stands for an element that matches a byte
/// exactly when each nibble written as a digit equals that digit; a `?`
/// leaves its nibble free.
pub proof fn lemma_hex_token_matching(c1: u8, c2: u8, b: u8)
    requires
        c1 == 63 || spec_digit(c1, 16) is Some,
        c2 == 63 || spec_digit(c2, 16) is Some,
    ensures
        spec_parse_token(seq![c1, c2]) matches Ok(e) && (e.spec_matches(b) <==> ((c1 == 63 || (b >> 4) == spec_digit(
            c1,
            16,
        )->0) && (c2 == 63 || (b & 0xF) == spec_digit(c2, 16)->0))),
{
    let w = seq![c1, c2];
    assert(w.drop_last() =~= seq![c1]);
    assert(seq![c1].drop_last() =~= Seq::<u8>::empty());
    let d1: u8 = if c1 == 63 { 0 } else { spec_digit(c1, 16)->0 };
    let d2: u8 = if c2 == 63 { 0 } else { spec_digit(c2, 16)->0 };
    let m1: int = if c1 == 63 { 0 } else { 15 };
    let m2: int = if c2 == 63 { 0 } else { 15 };
    assert(spec_digits(Seq::<u8>::empty(), 16) == Some((0int, 0int)));
    assert(seq![c1].last() == c1);
    assert(w.last() == c2);
    assert(spec_digits(seq![c1], 16) == Some((d1 as int, m1)));
    assert(spec_digits(w, 16) == Some((d1 * 16 + d2, m1 * 16 + m2)));
    let v = (d1 * 16 + d2) as u8;
    let m = (m1 * 16 + m2) as u8;
    SignatureElement::lemma_from_value_mask(v, m);
    lemma_nibble_match(b, d1, d2);
    if c1 == 63 && c2 == 63 {
        assert(m == 0);
    } else if c1 == 63 {
        assert(m == 0x0F);
        assert(v == d2);
    } else if c2 == 63 {
        assert(m == 0xF0);
        assert(v == (d1 * 16) as u8);
    } else {
        assert(m == 0xFF);
    }
}

/// Bit `j` of a byte.
pub open spec fn spec_bit(x: u8, j: u8) -> u8 {
    (x >> j) & 1
}

/// Bit `j` of an integer taken as a byte.
pub open spec fn spec_int_bit(x: int, j: u8) -> u8 {
    spec_bit(x as u8, j)
}

/// Shifting a digit in from below moves every bit one place up.
proof fn lemma_shift_in(x: u8, e: u8, j: u8)
    by (bit_vector)
    requires
        x < 128,
        e <= 1,
        j < 7,
    ensures
        spec_bit((x * 2 + e) as u8, 0) == e,
        spec_bit((x * 2 + e) as u8, (j + 1) as u8) == spec_bit(x, j),
{
}

/// Two bytes agree under a mask exactly when they agree on each masked bit.
proof fn lemma_masked_bits(b: u8, v: u8, m: u8)
    by (bit_vector)
    ensures
        (b & m == v & m) <==> ((spec_bit(m, 0) == 0 || spec_bit(b, 0) == spec_bit(v, 0)) && (spec_bit(m, 1) == 0
            || spec_bit(b, 1) == spec_bit(v, 1)) && (spec_bit(m, 2) == 0 || spec_bit(b, 2) == spec_bit(v, 2)) && (
        spec_bit(m, 3) == 0 || spec_bit(b, 3) == spec_bit(v, 3)) && (spec_bit(m, 4) == 0 || spec_bit(b, 4)
            == spec_bit(v, 4)) && (spec_bit(m, 5) == 0 || spec_bit(b, 5) == spec_bit(v, 5)) && (spec_bit(m, 6) == 0
            || spec_bit(b, 6) == spec_bit(v, 6)) && (spec_bit(m, 7) == 0 || spec_bit(b, 7) == spec_bit(v, 7))),
        forall|j: u8| j < 8 ==> #[trigger] spec_bit(m, j) <= 1,
{
}

/// The characters of a binary token: `0`, `1` or `?`.
pub open spec fn spec_binary_chars(w: Seq<u8>) -> bool {
    forall|i: int| 0 <= i < w.len() ==> (#[trigger] w[i] == 48 || w[i] == 49 || w[i] == 63)
}

/// The value that the first `k` characters of a binary token spell.
spec fn spec_prefix_value(w: Seq<u8>, k: int) -> int {
    match spec_digits(w.take(k), 2) {
        Some((v, _)) => v,
        None => 0,
    }
}

/// The mask that the first `k` characters of a binary token spell.
spec fn spec_prefix_mask(w: Seq<u8>, k: int) -> int {
    match spec_digits(w.take(k), 2) {
        Some((_, m)) => m,
        None => 0,
    }
}

/// After the first `k` characters of a binary token, the value and mask
/// hold one bit per character, the last character lowest: mask 1 for a
/// digit, value its digit.
proof fn lemma_binary_digits_prefix(w: Seq<u8>, k: int)
    requires
        spec_binary_chars(w),
        0 <= k <= w.len(),
        k <= 8,
    ensures
        spec_digits(w.take(k), 2) is Some,
        0 <= spec_prefix_value(w, k) < pow_int(2, k as nat),
        0 <= spec_prefix_mask(w, k) < pow_int(2, k as nat),
        forall|j: u8|
            j < k ==> #[trigger] spec_int_bit(spec_prefix_mask(w, k), j) == (if w[k - 1 - j] == 63 {
                0u8
            } else {
                1u8
            }) && spec_int_bit(spec_prefix_value(w, k), j) == (if w[k - 1 - j] == 49 {
                1u8
            } else {
                0u8
            }),
    decreases k,
{
    if k == 0 {
        assert(w.take(0) =~= Seq::<u8>::empty());
    } else {
        lemma_binary_digits_prefix(w, k - 1);
        let (v0, m0) = spec_digits(w.take(k - 1), 2)->0;
        assert(v0 == spec_prefix_value(w, k - 1) && m0 == spec_prefix_mask(w, k - 1));
        assert(w.take(k).drop_last() =~= w.take(k - 1));
        assert(w.take(k).last() == w[k - 1]);
        let c = w[k - 1];
        let e: u8 = if c == 49 { 1 } else { 0 };
        let mb: u8 = if c == 63 { 0 } else { 1 };
        assert(pow_int(2, k as nat) == 2 * pow_int(2, (k - 1) as nat));
        assert(pow_int(2, (k - 1) as nat) <= 128) by {
            reveal_with_fuel(pow_int, 9);
        }
        let v1 = v0 * 2 + e;
        let m1 = m0 * 2 + mb;
        assert(spec_digits(w.take(k), 2) == Some((v1, m1)));
        assert(v1 == spec_prefix_value(w, k) && m1 == spec_prefix_mask(w, k));
        assert(m1 as u8 == ((m0 as u8) * 2 + mb) as u8);
        assert(v1 as u8 == ((v0 as u8) * 2 + e) as u8);
        assert forall|j: u8| j < k implies #[trigger] spec_int_bit(spec_prefix_mask(w, k), j) == (if w[k - 1 - j] == 63 {
            0u8
        } else {
            1u8
        }) && spec_int_bit(spec_prefix_value(w, k), j) == (if w[k - 1 - j] == 49 { 1u8 } else { 0u8 }) by {
            if j == 0 {
                lemma_shift_in(m0 as u8, mb, 0);
                lemma_shift_in(v0 as u8, e, 0);
            } else {
                let jj = (j - 1) as u8;
                lemma_shift_in(m0 as u8, mb, jj);
                lemma_shift_in(v0 as u8, e, jj);
                assert(spec_int_bit(m0, jj) == (if w[k - 1 - 1 - jj] == 63 { 0u8 } else { 1u8 }));
                assert(spec_int_bit(v0, jj) == (if w[k - 1 - 1 - jj] == 49 { 1u8 } else { 0u8 }));
                assert(k - 1 - 1 - jj == k - 1 - j);
                assert((jj + 1) as u8 == j);
            }
        }
    }
}

/// An eight-character binary token stands for an element that matches a
/// byte exactly when each bit written as a digit equals that digit, the
/// first character naming the highest bit; a `?` leaves its bit free.
pub proof fn lemma_binary_token_matching(w: Seq<u8>, b: u8)
    requires
        w.len() == 8,
        spec_binary_chars(w),
    ensures
        spec_parse_token(w) matches Ok(e) && (e.spec_matches(b) <==> forall|i: int|
            0 <= i < 8 ==> (#[trigger] w[i] == 63 || spec_bit(b, (7 - i) as u8) == w[i] - 48)),
{
    lemma_binary_digits_prefix(w, 8);
    assert(w.take(8) =~= w);
    let (v, m) = spec_digits(w, 2)->0;
    assert(pow_int(2, 8) == 256) by {
        reveal_with_fuel(pow_int, 9);
    }
    let vv = v as u8;
    let mm = m as u8;
    SignatureElement::lemma_from_value_mask(vv, mm);
    lemma_masked_bits(b, vv & mm, mm);
    lemma_masked_bits(b, vv, mm);
    let cond = forall|i: int| 0 <= i < 8 ==> (#[trigger] w[i] == 63 || spec_bit(b, (7 - i) as u8) == w[i] - 48);
    assert(((b & mm) == (vv & mm)) <==> cond) by {
        assert forall|j: u8| j < 8 implies (spec_bit(mm, j) == 0 || spec_bit(b, j) == spec_bit(vv, j)) <==> (w[7 - j]
            == 63 || spec_bit(b, j) == w[7 - j] - 48) by {
            assert(spec_int_bit(m, j) == (if w[8 - 1 - j] == 63 { 0u8 } else { 1u8 }));
            assert(spec_int_bit(v, j) == (if w[8 - 1 - j] == 49 { 1u8 } else { 0u8 }));
        }
        if cond {
            assert forall|j: u8| j < 8 implies (spec_bit(mm, j) == 0 || spec_bit(b, j) == spec_bit(vv, j)) by {
                let i = 7 - j;
                assert(w[i] == 63 || spec_bit(b, (7 - i) as u8) == w[i] - 48);
                assert((7 - i) as u8 == j);
            }
            assert(spec_bit(mm, 0) == 0 || spec_bit(b, 0) == spec_bit(vv, 0));
            assert(spec_bit(mm, 1) == 0 || spec_bit(b, 1) == spec_bit(vv, 1));
            assert(spec_bit(mm, 2) == 0 || spec_bit(b, 2) == spec_bit(vv, 2));
            assert(spec_bit(mm, 3) == 0 || spec_bit(b, 3) == spec_bit(vv, 3));
            assert(spec_bit(mm, 4) == 0 || spec_bit(b, 4) == spec_bit(vv, 4));
            assert(spec_bit(mm, 5) == 0 || spec_bit(b, 5) == spec_bit(vv, 5));
            assert(spec_bit(mm, 6) == 0 || spec_bit(b, 6) == spec_bit(vv, 6));
            assert(spec_bit(mm, 7) == 0 || spec_bit(b, 7) == spec_bit(vv, 7));
        }
        if (b & mm) == (vv & mm) {
            assert forall|i: int| 0 <= i < 8 implies (#[trigger] w[i] == 63 || spec_bit(b, (7 - i) as u8) == w[i] - 48) by {
                let j = (7 - i) as u8;
                assert(spec_bit(mm, j) == 0 || spec_bit(b, j) == spec_bit(vv, j));
                assert(w[7 - j] == w[i]);
            }
        }
    }
}

} // verus!

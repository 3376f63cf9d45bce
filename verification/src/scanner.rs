//! Scanning byte slices for a signature.
//!
//! A signature of `m` elements matches the bytes at offset `p` when
//! `p + m` does not pass the end and every element accepts the byte at its
//! place.  `find_pattern` returns the first such offset.  The scanner first
//! compares one fully masked byte of the signature (and the byte after it,
//! when that one is fully masked too) and only then the whole signature; a
//! signature must therefore hold at least one fully masked byte.
use vstd::prelude::*;
use crate::result::ConstScanResult;
use crate::signature::SignatureElement;
use crate::signature::spec_has_full_byte;
use crate::system::ScanMode;
use crate::arch::spec_block_scan;
use crate::arch::scan_sse;
use crate::arch::scan_avx2;
use crate::arch::scan_avx512;
use crate::arch::scan_neon;

verus! {

/// How far apart the matches reported by `find_all_pattern` lie at least.
#[derive(Clone, Copy, Debug, PartialEq, Eq, Structural)]
pub enum ScanAlignment {
    X1,
    X16,
}

impl ScanAlignment {
    pub open spec fn spec_stride(self) -> usize {
        match self {
            ScanAlignment::X1 => 1,
            ScanAlignment::X16 => 16,
        }
    }

    /// The step in bytes: 1 or 16.
    #[verifier::when_used_as_spec(spec_stride)]
    pub fn stride(self) -> (r: usize)
        ensures
            r == self.spec_stride(),
    {
        match self {
            ScanAlignment::X1 => 1,
            ScanAlignment::X16 => 16,
        }
    }
}

/// Whether `sig` matches the bytes of `data` at offset `p`.
pub open spec fn spec_matches_at(data: Seq<u8>, sig: Seq<SignatureElement>, p: int) -> bool {
    &&& 0 <= p
    &&& p + sig.len() <= data.len()
    &&& forall|j: int| 0 <= j < sig.len() ==> #[trigger] sig[j].spec_matches(data[p + j])
}

/// The first offset at or after `start` where `sig` matches.
pub open spec fn spec_first_match(data: Seq<u8>, sig: Seq<SignatureElement>, start: int) -> Option<int>
    decreases data.len() - start,
{
    if start < 0 || start + sig.len() > data.len() {
        None
    } else if spec_matches_at(data, sig, start) {
        Some(start)
    } else {
        spec_first_match(data, sig, start + 1)
    }
}

/// The offsets that repeated scanning reports: the first match at or after
/// `start`, then the first match at least `stride` bytes after it, and so
/// on, while the next start lies inside the data.
pub open spec fn spec_find_all(data: Seq<u8>, sig: Seq<SignatureElement>, start: int, stride: int) -> Seq<int>
    decreases (if 0 <= start <= data.len() { data.len() + 1 - start } else { 0 }),
{
    if stride < 1 || start < 0 || start >= data.len() {
        seq![]
    } else {
        match spec_first_match(data, sig, start) {
            None => seq![],
            Some(p) => {
                proof {
                    lemma_first_match_facts(data, sig, start);
                }
                seq![p] + spec_find_all(data, sig, p + stride, stride)
            },
        }
    }
}

/// The first match at or after `start` is a match, and none lies before it.
pub proof fn lemma_first_match_facts(data: Seq<u8>, sig: Seq<SignatureElement>, start: int)
    requires
        0 <= start,
    ensures
        match spec_first_match(data, sig, start) {
            Some(p) => start <= p && spec_matches_at(data, sig, p) && forall|q: int|
                start <= q < p ==> !spec_matches_at(data, sig, q),
            None => forall|q: int| start <= q ==> !spec_matches_at(data, sig, q),
        },
    decreases data.len() - start,
{
    if start + sig.len() > data.len() {
    } else if spec_matches_at(data, sig, start) {
    } else {
        lemma_first_match_facts(data, sig, start + 1);
    }
}

/// A match with no match between `start` and it is the first match.
pub proof fn lemma_first_match_is(data: Seq<u8>, sig: Seq<SignatureElement>, start: int, p: int)
    requires
        0 <= start <= p,
        spec_matches_at(data, sig, p),
        forall|q: int| start <= q < p ==> !spec_matches_at(data, sig, q),
    ensures
        spec_first_match(data, sig, start) == Some(p),
    decreases p - start,
{
    if start < p {
        lemma_first_match_is(data, sig, start + 1, p);
    }
}

/// Without a match at or after `start`, there is no first match.
pub proof fn lemma_first_match_none(data: Seq<u8>, sig: Seq<SignatureElement>, start: int)
    requires
        0 <= start,
        forall|q: int| start <= q ==> !spec_matches_at(data, sig, q),
    ensures
        spec_first_match(data, sig, start) is None,
    decreases data.len() - start,
{
    if start + sig.len() <= data.len() {
        lemma_first_match_none(data, sig, start + 1);
    }
}

/// An offset as a mathematical integer.
pub open spec fn spec_opt_int(o: Option<usize>) -> Option<int> {
    match o {
        Some(p) => Some(p as int),
        None => None,
    }
}

/// The first element that fixes all eight bits, or 0 when there is none.
pub fn find_first_all_index(sig: &[SignatureElement]) -> (r: usize)
    ensures
        spec_has_full_byte(sig@) ==> r < sig@.len() && sig@[r as int].spec_is_all(),
        forall|k: int| 0 <= k < r ==> !(#[trigger] sig@[k]).spec_is_all(),
        !spec_has_full_byte(sig@) ==> r == 0,
{
    let n = sig.len();
    let mut i: usize = 0;
    while i < n
        invariant
            n == sig@.len(),
            0 <= i <= n,
            forall|k: int| 0 <= k < i ==> !(#[trigger] sig@[k]).spec_is_all(),
        decreases n - i,
    {
        if sig[i].is_all() {
            assert(sig@[i as int].spec_is_all());
            return i;
        }
        i = i + 1;
    }
    0
}

/// Both the element at `i` and the one after it fix all eight bits.
pub open spec fn spec_full_pair(sig: Seq<SignatureElement>, i: int) -> bool {
    0 <= i && i + 1 < sig.len() && sig[i].spec_is_all() && sig[i + 1].spec_is_all()
}

/// The first place where two fully masked elements follow each other.
pub fn find_first_pair(sig: &[SignatureElement]) -> (r: Option<usize>)
    ensures
        match r {
            Some(i) => spec_full_pair(sig@, i as int) && forall|k: int| 0 <= k < i ==> !spec_full_pair(sig@, k),
            None => forall|k: int| !spec_full_pair(sig@, k),
        },
{
    let n = sig.len();
    if n < 2 {
        return None;
    }
    let mut i: usize = 0;
    while i + 1 < n
        invariant
            n == sig@.len(),
            n >= 2,
            0 <= i <= n - 1,
            forall|k: int| 0 <= k < i ==> !spec_full_pair(sig@, k),
        decreases n - i,
    {
        if sig[i].is_all() && sig[i + 1].is_all() {
            return Some(i);
        }
        i = i + 1;
    }
    None
}

/// Whether `sig` matches `data` at `p` (which must leave room for it).
pub(crate) fn matches_full(data: &[u8], p: usize, sig: &[SignatureElement]) -> (r: bool)
    requires
        p + sig@.len() <= data@.len(),
    ensures
        r == spec_matches_at(data@, sig@, p as int),
{
    let m = sig.len();
    let _n = data.len();
    let mut j: usize = 0;
    while j < m
        invariant
            m == sig@.len(),
            data@.len() <= usize::MAX,
            p + m <= data@.len(),
            0 <= j <= m,
            forall|k: int| 0 <= k < j ==> #[trigger] sig@[k].spec_matches(data@[p + k]),
        decreases m - j,
    {
        if !sig[j].matches(data[p + j]) {
            return false;
        }
        j = j + 1;
    }
    true
}

/// The scalar scanner: the first offset at or after `begin` where `sig`
/// matches `data`.  `anchor_index` names a fully masked element, which is
/// compared first (together with the next element when that one is fully
/// masked too).
pub fn scan_single_raw(data: &[u8], begin: usize, sig: &[SignatureElement], anchor_index: usize) -> (r: ConstScanResult)
    requires
        anchor_index < sig@.len(),
        sig@[anchor_index as int].spec_is_all(),
    ensures
        spec_opt_int(r@) == spec_first_match(data@, sig@, begin as int),
{
    let n = data.len();
    let m = sig.len();
    if begin > n || m > n - begin {
        proof {
            lemma_first_match_none(data@, sig@, begin as int);
        }
        return ConstScanResult::null();
    }
    let anchor_byte = sig[anchor_index].value();
    let second = anchor_index + 1;
    let use_second = second < m && sig[second].is_all();
    let second_value = if use_second {
        sig[second].value()
    } else {
        0
    };
    let last = n - m;
    let mut p: usize = begin;
    while p <= last
        invariant
            n == data@.len(),
            m == sig@.len(),
            last == n - m,
            begin <= p,
            anchor_index < m,
            sig@[anchor_index as int].spec_is_all(),
            anchor_byte == sig@[anchor_index as int].spec_value(),
            use_second ==> second < m && sig@[second as int].spec_is_all() && second_value
                == sig@[second as int].spec_value(),
            second == anchor_index + 1,
            forall|q: int| begin <= q < p ==> !spec_matches_at(data@, sig@, q),
        decreases last + 1 - p,
    {
        let i = p + anchor_index;
        let b = data[i];
        if b == anchor_byte && (!use_second || data[i + 1] == second_value) {
            if matches_full(data, p, sig) {
                proof {
                    lemma_first_match_is(data@, sig@, begin as int, p as int);
                }
                return ConstScanResult::new(p);
            }
        } else {
            proof {
                if b != anchor_byte {
                    assert(b & 0xFFu8 == b) by (bit_vector);
                    assert(!sig@[anchor_index as int].spec_matches(data@[p + anchor_index]));
                } else {
                    let b2 = data@[i + 1];
                    assert(b2 & 0xFFu8 == b2) by (bit_vector);
                    assert(!sig@[second as int].spec_matches(data@[p + second]));
                }
            }
        }
        p = p + 1;
    }
    proof {
        lemma_first_match_none(data@, sig@, begin as int);
    }
    ConstScanResult::null()
}


/// A set of hints for choosing which bytes the scanner compares first.
#[derive(Clone, Copy, Debug, PartialEq, Eq, Structural)]
pub struct ScanHint(u64);

impl ScanHint {
    pub open spec fn spec_none() -> ScanHint {
        Self::spec_from_bits(0)
    }

    pub open spec fn spec_x86_64() -> ScanHint {
        Self::spec_from_bits(1)
    }

    pub open spec fn spec_pair0() -> ScanHint {
        Self::spec_from_bits(2)
    }

    /// No hint.
    #[verifier::when_used_as_spec(spec_none)]
    pub fn none() -> (r: ScanHint)
        ensures
            r == Self::spec_none(),
    {
        ScanHint(0)
    }

    /// The data is x86-64 machine code: prefer the byte pair that is rarest
    /// in such code.
    #[verifier::when_used_as_spec(spec_x86_64)]
    pub fn x86_64() -> (r: ScanHint)
        ensures
            r == Self::spec_x86_64(),
    {
        ScanHint(1)
    }

    /// Only consider the pair at the start of the signature.
    #[verifier::when_used_as_spec(spec_pair0)]
    pub fn pair0() -> (r: ScanHint)
        ensures
            r == Self::spec_pair0(),
    {
        ScanHint(2)
    }

    /// The bits of the hint set.
    pub closed spec fn spec_bits(self) -> u64 {
        self.0
    }

    pub closed spec fn spec_from_bits(bits: u64) -> ScanHint {
        ScanHint(bits)
    }

    /// Every hint of `other` is in `self`.
    pub open spec fn spec_contains(self, other: ScanHint) -> bool {
        self.spec_bits() & other.spec_bits() == other.spec_bits()
    }

    /// The hints of both sets.
    pub open spec fn spec_union(self, other: ScanHint) -> ScanHint {
        Self::spec_from_bits(self.spec_bits() | other.spec_bits())
    }

    pub proof fn lemma_from_bits(b: u64)
        ensures
            #[trigger] Self::spec_from_bits(b).spec_bits() == b,
    {
    }

    /// The hint set with the given bits.
    pub fn from_bits(bits: u64) -> (r: ScanHint)
        ensures
            r.spec_bits() == bits,
    {
        ScanHint(bits)
    }

    /// The bits of the hint set.
    pub fn bits(self) -> (r: u64)
        ensures
            r == self.spec_bits(),
    {
        self.0
    }

    /// Whether every hint of `other` is in `self`.
    pub fn contains(self, other: ScanHint) -> (r: bool)
        ensures
            r == self.spec_contains(other),
    {
        self.0 & other.0 == other.0
    }
}

impl core::ops::BitOr for ScanHint {
    type Output = Self;

    fn bitor(self, rhs: Self) -> (r: Self) {
        ScanHint(self.0 | rhs.0)
    }
}

impl vstd::std_specs::ops::BitOrSpecImpl for ScanHint {
    open spec fn obeys_bitor_spec() -> bool {
        true
    }

    open spec fn bitor_req(self, rhs: ScanHint) -> bool {
        true
    }

    open spec fn bitor_spec(self, rhs: ScanHint) -> ScanHint {
        self.spec_union(rhs)
    }
}

/// The union of two hint sets contains each of them, and a set contains
/// another exactly when their union is the set itself.
pub proof fn lemma_hint_union(a: ScanHint, b: ScanHint)
    ensures
        a.spec_union(b).spec_contains(a),
        a.spec_union(b).spec_contains(b),
        a.spec_union(b) == b.spec_union(a),
        a.spec_contains(b) <==> a.spec_union(b) == a,
        a.spec_contains(ScanHint::none()),
        a.spec_contains(a),
{
    ScanHint::lemma_from_bits(0);
    ScanHint::lemma_from_bits(a.spec_bits() | b.spec_bits());
    ScanHint::lemma_from_bits(b.spec_bits() | a.spec_bits());
    let x = a.spec_bits();
    let y = b.spec_bits();
    assert((x | y) & x == x && (x | y) & y == y && (x | y) == (y | x) && (x & y == y <==> (x | y) == x)
        && x & 0 == 0 && x & x == x) by (bit_vector);
    if a.spec_contains(b) {
        assert(a == ScanHint::spec_from_bits(x));
    }
    if a.spec_union(b) == a {
        assert(a.spec_union(b).spec_bits() == x);
    }
}

/// Containment of hint sets is transitive.
pub proof fn lemma_hint_contains_transitive(a: ScanHint, b: ScanHint, c: ScanHint)
    requires
        a.spec_contains(b),
        b.spec_contains(c),
    ensures
        a.spec_contains(c),
{
    let x = a.spec_bits();
    let y = b.spec_bits();
    let z = c.spec_bits();
    assert(x & y == y && y & z == z ==> x & z == z) by (bit_vector);
}

/// What the scanner of `mode` finds in `data`, whose first byte lies at
/// address `base`, comparing the element at `c` first: nothing when the
/// signature is longer than the data; else the first match with the scalar
/// scanner, and what the block scan of the mode's width finds with a vector
/// scanner.
pub open spec fn spec_scan_in_mode(
    data: Seq<u8>,
    base: int,
    sig: Seq<SignatureElement>,
    c: int,
    alignment: ScanAlignment,
    mode: ScanMode,
) -> Option<int> {
    let x16 = alignment == ScanAlignment::X16;
    if sig.len() > data.len() {
        None
    } else {
        match mode {
            ScanMode::Single => spec_first_match(data, sig, 0),
            ScanMode::Sse => spec_block_scan(data, base, sig, c, 16, x16),
            ScanMode::Avx2 => spec_block_scan(data, base, sig, c, 32, x16),
            ScanMode::Avx512 => spec_block_scan(data, base, sig, c, 64, x16),
            ScanMode::Neon => spec_block_scan(data, base, sig, c, 16, x16),
        }
    }
}

/// What the scanner works with: the signature, the alignment and hints it
/// was given, the index of the first fully masked element (compared first),
/// the pair of fully masked elements that the hints point at, and the
/// scanner implementation the processor supports.
pub struct ScanContext<'a> {
    pub signature: &'a [SignatureElement],
    pub alignment: ScanAlignment,
    pub hints: ScanHint,
    pub anchor_index: usize,
    pub pair_index: Option<usize>,
    pub mode: ScanMode,
}

impl<'a> ScanContext<'a> {
    /// The context can scan: the signature holds a fully masked element,
    /// `anchor_index` names one, and `pair_index`, if any, names two in a row.
    pub open spec fn wf(&self) -> bool {
        &&& spec_has_full_byte(self.signature@)
        &&& self.anchor_index < self.signature@.len()
        &&& self.signature@[self.anchor_index as int].spec_is_all()
        &&& (self.pair_index matches Some(i) ==> spec_full_pair(self.signature@, i as int))
    }

    /// The element the vector scanners compare first: the pair when there
    /// is one, else the anchor.
    pub open spec fn spec_compare_index(&self) -> usize {
        match self.pair_index {
            Some(i) => i,
            None => self.anchor_index,
        }
    }

    /// Prepares a scan with the scanner `mode`: the anchor is the first
    /// fully masked element, the pair is chosen from the hints (see
    /// `apply_hints`); without a byte-pair frequency table every pair rates
    /// the same, so this is the first pair of fully masked elements.
    pub fn new(signature: &'a [SignatureElement], alignment: ScanAlignment, hints: ScanHint, mode: ScanMode) -> (r: Self)
        ensures
            r.signature@ == signature@,
            r.alignment == alignment,
            r.hints == hints,
            r.mode == mode,
            spec_has_full_byte(signature@) ==> r.wf(),
            forall|k: int| 0 <= k < r.anchor_index ==> !(#[trigger] signature@[k]).spec_is_all(),
            match r.pair_index {
                Some(i) => spec_full_pair(signature@, i as int) && forall|k: int| 0 <= k < i ==> !spec_full_pair(signature@, k),
                None => forall|k: int| !spec_full_pair(signature@, k),
            },
    {
        let anchor_index = find_first_all_index(signature);
        let mut ctx = ScanContext { signature, alignment, hints, anchor_index, pair_index: None, mode };
        ctx.apply_hints(&[], &[]);
        proof {
            if hints.spec_contains(ScanHint::spec_x86_64()) && exists|i: int|
                spec_is_hinted_pair(signature@, hints, Seq::<(u8, u8)>::empty(), Seq::<u16>::empty(), i) {
                let i = ctx.pair_index->0 as int;
                assert forall|k: int| 0 <= k < i implies !spec_full_pair(signature@, k) by {
                    if spec_full_pair(signature@, k) {
                        assert(spec_score_at(signature@, Seq::<(u8, u8)>::empty(), Seq::<u16>::empty(), k) == 0);
                        assert(spec_score_at(signature@, Seq::<(u8, u8)>::empty(), Seq::<u16>::empty(), i) == 0);
                    }
                }
            }
        }
        ctx
    }

    /// Chooses the pair of fully masked elements: with the x86-64 hint the
    /// one rated best by the byte-pair frequency table `pairs`/`scores`
    /// (see `apply_hints_x86_64`), otherwise, or when that finds none, the
    /// first such pair.
    pub fn apply_hints(&mut self, pairs: &[(u8, u8)], scores: &[u16])
        requires
            spec_pairs_sorted(pairs@),
            pairs@.len() <= scores@.len(),
        ensures
            final(self).signature == old(self).signature,
            final(self).alignment == old(self).alignment,
            final(self).hints == old(self).hints,
            final(self).anchor_index == old(self).anchor_index,
            final(self).mode == old(self).mode,
            match final(self).pair_index {
                Some(i) => spec_full_pair(old(self).signature@, i as int),
                None => forall|k: int| !spec_full_pair(old(self).signature@, k),
            },
            !(old(self).hints.spec_contains(ScanHint::spec_x86_64()) && exists|i: int|
                spec_is_hinted_pair(old(self).signature@, old(self).hints, pairs@, scores@, i)) ==> (final(self).pair_index matches Some(i) ==> forall|k: int|
                0 <= k < i ==> !spec_full_pair(old(self).signature@, k)),
            (old(self).hints.spec_contains(ScanHint::spec_x86_64()) && exists|i: int|
                spec_is_hinted_pair(old(self).signature@, old(self).hints, pairs@, scores@, i)) ==> (final(self).pair_index matches Some(i) && spec_is_hinted_pair(
                old(self).signature@,
                old(self).hints,
                pairs@,
                scores@,
                i as int,
            )),
    {
        let sig = self.signature;
        if self.hints.contains(ScanHint::x86_64()) {
            if let Some(idx) = apply_hints_x86_64(sig, self.hints, pairs, scores) {
                self.pair_index = Some(idx);
                return;
            }
        }
        if let Some(idx) = find_first_pair(sig) {
            self.pair_index = Some(idx);
        } else {
            self.pair_index = None;
        }
    }

    /// What `scan` finds in `data`, whose first byte lies at address
    /// `base`.
    pub open spec fn spec_scan(&self, data: Seq<u8>, base: int) -> Option<int> {
        spec_scan_in_mode(data, base, self.signature@, self.spec_compare_index() as int, self.alignment, self.mode)
    }

    /// The scan finds the first match: the scalar scanner always does, and
    /// every scanner does with `X1` alignment.
    pub open spec fn spec_finds_first(&self) -> bool {
        self.mode == ScanMode::Single || self.alignment == ScanAlignment::X1
    }

    /// Scans `data`, whose first byte lies at address `base`, with the
    /// scanner of the context's mode; the result is an offset into `data`.
    pub fn scan(&self, data: &[u8], base: usize) -> (r: ConstScanResult)
        requires
            self.wf(),
        ensures
            spec_opt_int(r@) == self.spec_scan(data@, base as int),
            self.spec_finds_first() ==> spec_opt_int(r@) == spec_first_match(data@, self.signature@, 0),
            r@ matches Some(p) ==> spec_matches_at(data@, self.signature@, p as int),
    {
        let n = data.len();
        let m = self.signature.len();
        proof {
            lemma_first_match_facts(data@, self.signature@, 0);
        }
        if m > n {
            proof {
                lemma_first_match_none(data@, self.signature@, 0);
            }
            return ConstScanResult::null();
        }
        match self.mode {
            ScanMode::Single => scan_single_raw(data, 0, self.signature, self.anchor_index),
            ScanMode::Sse => scan_sse(data, base, self),
            ScanMode::Avx2 => scan_avx2(data, base, self),
            ScanMode::Avx512 => scan_avx512(data, base, self),
            ScanMode::Neon => scan_neon(data, base, self),
        }
    }
}

/// Finds the first offset where `signature` matches `data`, with the
/// scalar scanner.  Alignment and hints choose how the scan proceeds,
/// never what it finds.
pub fn find_pattern(data: &[u8], signature: &[SignatureElement], alignment: ScanAlignment, hints: ScanHint) -> (r: ConstScanResult)
    requires
        spec_has_full_byte(signature@),
    ensures
        spec_opt_int(r@) == spec_first_match(data@, signature@, 0),
        match r@ {
            Some(p) => spec_matches_at(data@, signature@, p as int) && forall|q: int|
                0 <= q < p ==> !spec_matches_at(data@, signature@, q),
            None => forall|q: int| !spec_matches_at(data@, signature@, q),
        },
{
    let context = ScanContext::new(signature, alignment, hints, ScanMode::Single);
    let r = context.scan(data, 0);
    proof {
        lemma_first_match_facts(data@, signature@, 0);
    }
    r
}

/// The element a vector scanner compares first for `sig`: the first of
/// two fully masked elements in a row, or else the first fully masked one.
pub open spec fn spec_compare_index_of(sig: Seq<SignatureElement>) -> int {
    if exists|i: int| spec_full_pair(sig, i) {
        choose|i: int| spec_full_pair(sig, i) && forall|k: int| 0 <= k < i ==> !spec_full_pair(sig, k)
    } else {
        choose|i: int| 0 <= i < sig.len() && sig[i].spec_is_all() && forall|k: int| 0 <= k < i ==> !(#[trigger] sig[k]).spec_is_all()
    }
}

/// Finds `signature` in `data`, whose first byte lies at address `base`,
/// with the scanner `mode` that the processor supports.  With `X1`
/// alignment, or with the scalar scanner, the result is the first match,
/// whatever the mode; with `X16` a vector scanner keeps, inside its blocks,
/// only the matches on aligned lanes.  Whatever it reports is a match.
pub fn find_pattern_internal(
    data: &[u8],
    base: usize,
    signature: &[SignatureElement],
    alignment: ScanAlignment,
    hints: ScanHint,
    mode: ScanMode,
) -> (r: ConstScanResult)
    requires
        spec_has_full_byte(signature@),
    ensures
        spec_opt_int(r@) == spec_scan_in_mode(data@, base as int, signature@, spec_compare_index_of(signature@), alignment, mode),
        (mode == ScanMode::Single || alignment == ScanAlignment::X1) ==> spec_opt_int(r@) == spec_first_match(data@, signature@, 0),
        r@ matches Some(p) ==> spec_matches_at(data@, signature@, p as int),
{
    let context = ScanContext::new(signature, alignment, hints, mode);
    proof {
        let c = context.spec_compare_index() as int;
        let sig = signature@;
        if exists|i: int| spec_full_pair(sig, i) {
            assert(context.pair_index is Some);
            assert(spec_full_pair(sig, c) && forall|k: int| 0 <= k < c ==> !spec_full_pair(sig, k));
            let j = choose|i: int| spec_full_pair(sig, i) && forall|k: int| 0 <= k < i ==> !spec_full_pair(sig, k);
            assert(c == j);
        } else {
            assert(context.pair_index is None);
            assert(0 <= c < sig.len() && sig[c].spec_is_all() && forall|k: int| 0 <= k < c ==> !(#[trigger] sig[k]).spec_is_all());
            let j = choose|i: int| 0 <= i < sig.len() && sig[i].spec_is_all() && forall|k: int| 0 <= k < i ==> !(#[trigger] sig[k]).spec_is_all();
            assert(c == j);
        }
        assert(spec_compare_index_of(sig) == c);
    }
    context.scan(data, base)
}

/// Every match offset of `find_all`'s list is a match, the offsets rise by
/// at least `stride`, and no match lies between `start` and the first one,
/// nor less than `stride` past one of them and before the next.
pub proof fn lemma_find_all_facts(data: Seq<u8>, sig: Seq<SignatureElement>, start: int, stride: int)
    requires
        0 <= start,
        stride >= 1,
        sig.len() >= 1,
    ensures
        ({
            let all = spec_find_all(data, sig, start, stride);
            &&& forall|k: int| 0 <= k < all.len() ==> spec_matches_at(data, sig, #[trigger] all[k])
            &&& forall|k: int| 0 <= k < all.len() ==> start <= #[trigger] all[k]
            &&& forall|k: int| 0 <= k < all.len() - 1 ==> #[trigger] all[k] + stride <= all[k + 1]
            &&& forall|q: int|
                start <= q && (all.len() == 0 || q < all[0]) ==> !spec_matches_at(data, sig, q)
            &&& forall|k: int, q: int|
                #![trigger all[k], spec_matches_at(data, sig, q)]
                0 <= k < all.len() && all[k] + stride <= q && (k == all.len() - 1 || q < all[k + 1])
                    ==> !spec_matches_at(data, sig, q)
        }),
    decreases (if 0 <= start <= data.len() { data.len() + 1 - start } else { 0 }),
{
    let all = spec_find_all(data, sig, start, stride);
    if start >= data.len() {
        assert forall|q: int| start <= q implies !spec_matches_at(data, sig, q) by {
            if spec_matches_at(data, sig, q) {
                assert(sig.len() >= 0);
            }
        }
    } else {
        lemma_first_match_facts(data, sig, start);
        match spec_first_match(data, sig, start) {
            None => {},
            Some(p) => {
                let next = p + stride;
                lemma_find_all_facts(data, sig, next, stride);
                let rest = spec_find_all(data, sig, next, stride);
                assert(all == seq![p] + rest);
                assert forall|k: int| 0 <= k < all.len() implies spec_matches_at(data, sig, #[trigger] all[k]) by {
                    if k > 0 {
                        assert(all[k] == rest[k - 1]);
                    }
                }
                assert forall|k: int| 0 <= k < all.len() implies start <= #[trigger] all[k] by {
                    if k > 0 {
                        assert(all[k] == rest[k - 1]);
                    }
                }
                assert forall|k: int| 0 <= k < all.len() - 1 implies #[trigger] all[k] + stride <= all[k + 1] by {
                    assert(all[k + 1] == rest[k]);
                    if k > 0 {
                        assert(all[k] == rest[k - 1]);
                    }
                }
                assert forall|k: int, q: int|
                    #![trigger all[k], spec_matches_at(data, sig, q)]
                    0 <= k < all.len() && all[k] + stride <= q && (k == all.len() - 1 || q < all[k + 1])
                    implies !spec_matches_at(data, sig, q) by {
                    if k > 0 {
                        assert(all[k] == rest[k - 1]);
                        if k < all.len() - 1 {
                            assert(all[k + 1] == rest[k]);
                        }
                    } else {
                        if all.len() > 1 {
                            assert(all[1] == rest[0]);
                        }
                    }
                }
            },
        }
    }
}

/// With stride 1, `find_all`'s list holds every match at or after `start`,
/// in increasing order.
pub proof fn lemma_find_all_x1_complete(data: Seq<u8>, sig: Seq<SignatureElement>, start: int)
    requires
        0 <= start,
        sig.len() >= 1,
    ensures
        forall|q: int| start <= q ==> (spec_matches_at(data, sig, q) <==> spec_find_all(data, sig, start, 1).contains(q)),
        forall|k: int, l: int| 0 <= k < l < spec_find_all(data, sig, start, 1).len()
            ==> spec_find_all(data, sig, start, 1)[k] < spec_find_all(data, sig, start, 1)[l],
{
    lemma_find_all_facts(data, sig, start, 1);
    let all = spec_find_all(data, sig, start, 1);
    assert forall|k: int, l: int| 0 <= k < l < all.len() implies all[k] < all[l] by {
        lemma_increasing(all, k, l);
    }
    assert forall|q: int| start <= q implies (spec_matches_at(data, sig, q) <==> all.contains(q)) by {
        if all.contains(q) {
            let k = choose|k: int| 0 <= k < all.len() && all[k] == q;
            assert(spec_matches_at(data, sig, all[k]));
        }
        if spec_matches_at(data, sig, q) && !all.contains(q) {
            if all.len() == 0 || q < all[0] {
            } else {
                let k = lemma_bracket(all, q);
                assert(all[k] + 1 <= q);
            }
        }
    }
}

proof fn lemma_increasing(all: Seq<int>, k: int, l: int)
    requires
        forall|i: int| 0 <= i < all.len() - 1 ==> #[trigger] all[i] + 1 <= all[i + 1],
        0 <= k < l < all.len(),
    ensures
        all[k] < all[l],
    decreases l - k,
{
    if l > k + 1 {
        lemma_increasing(all, k, l - 1);
        assert(all[l - 1] + 1 <= all[l]);
    } else {
        assert(all[k] + 1 <= all[k + 1]);
    }
}

/// For `q` at or past the first entry and not in the list, the last entry
/// below `q`.
proof fn lemma_bracket(all: Seq<int>, q: int) -> (k: int)
    requires
        all.len() > 0,
        all[0] <= q,
        !all.contains(q),
    ensures
        0 <= k < all.len(),
        all[k] < q,
        k == all.len() - 1 || q < all[k + 1],
    decreases all.len(),
{
    if all.len() == 1 {
        0
    } else if all[1] > q {
        assert(all[0] != q);
        0
    } else {
        let sub = all.drop_first();
        assert(sub[0] == all[1]);
        if sub.contains(q) {
            let i = choose|i: int| 0 <= i < sub.len() && sub[i] == q;
            assert(all[i + 1] == q);
        }
        let k0 = lemma_bracket(sub, q);
        assert(sub[k0] == all[k0 + 1]);
        if k0 < sub.len() - 1 {
            assert(sub[k0 + 1] == all[k0 + 2]);
        }
        k0 + 1
    }
}

impl<'a> ScanContext<'a> {
    /// Scans `data` (at address `base`) again and again: the first result,
    /// then the result of a scan from one stride (of the alignment) past
    /// it, and so on.
    pub fn find_all(&self, data: &[u8], base: usize) -> (r: Vec<usize>)
        requires
            self.wf(),
            base + data@.len() <= usize::MAX,
        ensures
            r@.map_values(|p: usize| p as int) == self.spec_find_all_from(data@, base as int, 0, self.alignment.spec_stride() as int),
            self.spec_finds_first() ==> r@.map_values(|p: usize| p as int) == spec_find_all(
                data@,
                self.signature@,
                0,
                self.alignment.spec_stride() as int,
            ),
    {
        let stride = self.alignment.stride();
        let n = data.len();
        let ghost all = self.spec_find_all_from(data@, base as int, 0, stride as int);
        let mut results: Vec<usize> = Vec::new();
        let mut i: usize = 0;
        let mut done = false;
        while !done
            invariant
                self.wf(),
                base + data@.len() <= usize::MAX,
                n == data@.len(),
                stride == self.alignment.spec_stride(),
                stride >= 1,
                i <= n,
                all == self.spec_find_all_from(data@, base as int, 0, stride as int),
                done ==> results@.map_values(|p: usize| p as int) == all,
                !done ==> all == results@.map_values(|p: usize| p as int) + self.spec_find_all_from(
                    data@,
                    base as int,
                    i as int,
                    stride as int,
                ),
            decreases (n - i) * 2 + (if done { 0int } else { 1int }),
        {
            let ghost before = results@;
            if i >= n {
                assert(self.spec_find_all_from(data@, base as int, i as int, stride as int) =~= Seq::<int>::empty());
                assert(before.map_values(|p: usize| p as int) + Seq::<int>::empty() =~= before.map_values(|p: usize| p as int));
                done = true;
            } else {
                let result = self.scan_range(data, base, i, n);
                assert(data@.subrange(i as int, n as int) == data@.subrange(i as int, data@.len() as int));
                match result.get() {
                    None => {
                        assert(self.spec_find_all_from(data@, base as int, i as int, stride as int) =~= Seq::<int>::empty());
                        assert(before.map_values(|p: usize| p as int) + Seq::<int>::empty() =~= before.map_values(|p: usize| p as int));
                        done = true;
                    },
                    Some(p) => {
                        results.push(p);
                        let ghost rest = self.spec_find_all_from(data@, base as int, p + stride, stride as int);
                        assert(self.spec_find_all_from(data@, base as int, i as int, stride as int) == seq![p as int] + rest);
                        assert(results@.map_values(|x: usize| x as int) =~= before.map_values(|x: usize| x as int).push(p as int));
                        if stride >= n - p {
                            assert(rest =~= Seq::<int>::empty());
                            assert(all =~= results@.map_values(|x: usize| x as int));
                            done = true;
                        } else {
                            assert(all =~= results@.map_values(|x: usize| x as int) + rest);
                            i = p + stride;
                        }
                    },
                }
            }
        }
        proof {
            if self.spec_finds_first() {
                lemma_find_all_from_first(*self, data@, base as int, 0, stride as int);
            }
        }
        results
    }

    /// Like `find_all`, but writes the offsets into `out` and stops when it
    /// is full; returns how many were written.  The slots after those keep
    /// their contents.
    pub fn find_all_bounded(&self, data: &[u8], base: usize, out: &mut [Option<usize>]) -> (r: usize)
        requires
            self.wf(),
            base + data@.len() <= usize::MAX,
        ensures
            ({
                let all = self.spec_find_all_from(data@, base as int, 0, self.alignment.spec_stride() as int);
                &&& r as int == if all.len() < old(out)@.len() { all.len() as int } else { old(out)@.len() as int }
                &&& final(out)@.len() == old(out)@.len()
                &&& forall|k: int| 0 <= k < r ==> #[trigger] final(out)@[k] == Some(all[k] as usize)
                &&& forall|k: int| r <= k < old(out)@.len() ==> #[trigger] final(out)@[k] == old(out)@[k]
            }),
    {
        let stride = self.alignment.stride();
        let n = data.len();
        let cap = out.len();
        let ghost all = self.spec_find_all_from(data@, base as int, 0, stride as int);
        let ghost orig = out@;
        proof {
            assert(all.skip(0) =~= all);
        }
        let mut count: usize = 0;
        let mut i: usize = 0;
        let mut done = cap == 0;
        while !done
            invariant
                self.wf(),
                base + data@.len() <= usize::MAX,
                n == data@.len(),
                cap == orig.len(),
                out@.len() == cap,
                stride == self.alignment.spec_stride(),
                stride >= 1,
                i <= n,
                count <= cap,
                all == self.spec_find_all_from(data@, base as int, 0, stride as int),
                forall|k: int| 0 <= k < count ==> #[trigger] out@[k] == Some(all[k] as usize),
                forall|k: int| count <= k < cap ==> #[trigger] out@[k] == orig[k],
                done ==> count as int == if all.len() < cap { all.len() as int } else { cap as int },
                !done ==> count < cap && count <= all.len() && all.skip(count as int) == self.spec_find_all_from(
                    data@,
                    base as int,
                    i as int,
                    stride as int,
                ),
            decreases (n - i) * 2 + (if done { 0int } else { 1int }),
        {
            if i >= n {
                assert(self.spec_find_all_from(data@, base as int, i as int, stride as int) =~= Seq::<int>::empty());
                done = true;
            } else {
                let result = self.scan_range(data, base, i, n);
                assert(data@.subrange(i as int, n as int) == data@.subrange(i as int, data@.len() as int));
                match result.get() {
                    None => {
                        assert(self.spec_find_all_from(data@, base as int, i as int, stride as int) =~= Seq::<int>::empty());
                        done = true;
                    },
                    Some(p) => {
                        let ghost rest = self.spec_find_all_from(data@, base as int, p + stride, stride as int);
                        assert(self.spec_find_all_from(data@, base as int, i as int, stride as int) == seq![p as int] + rest);
                        let ghost old_count = count;
                        assert(all.skip(count as int) == seq![p as int] + rest);
                        assert(all.skip(count as int).len() >= 1);
                        assert(all[count as int] == all.skip(count as int)[0]);
                        out[count] = Some(p);
                        count = count + 1;
                        assert(all.skip(count as int) =~= rest) by {
                            assert forall|t: int| 0 <= t < rest.len() implies all.skip(count as int)[t] == rest[t] by {
                                assert(all.skip(old_count as int)[t + 1] == rest[t]);
                            }
                        }
                        if count >= cap {
                            done = true;
                        } else if stride >= n - p {
                            assert(rest =~= Seq::<int>::empty());
                            done = true;
                        } else {
                            i = p + stride;
                        }
                    },
                }
            }
        }
        count
    }
}

/// Finds the successive matches of `signature` in `data` with the scalar
/// scanner: the first match, then the first match at least one stride (of
/// `alignment`) after it, and so on.  With `ScanAlignment::X1` these are
/// all the matches.
pub fn find_all_pattern(data: &[u8], signature: &[SignatureElement], alignment: ScanAlignment, hints: ScanHint) -> (r: Vec<usize>)
    requires
        spec_has_full_byte(signature@),
    ensures
        r@.map_values(|p: usize| p as int) == spec_find_all(data@, signature@, 0, alignment.spec_stride() as int),
{
    let _n = data.len();
    let context = ScanContext::new(signature, alignment, hints, ScanMode::Single);
    context.find_all(data, 0)
}

/// Like `find_all_pattern`, but writes the offsets into `out` and stops when
/// it is full; returns how many were written.  The slots after those keep
/// their contents.
pub fn find_all_pattern_bounded(
    data: &[u8],
    out: &mut [Option<usize>],
    signature: &[SignatureElement],
    alignment: ScanAlignment,
    hints: ScanHint,
) -> (r: usize)
    requires
        spec_has_full_byte(signature@),
    ensures
        ({
            let all = spec_find_all(data@, signature@, 0, alignment.spec_stride() as int);
            &&& r as int == if all.len() < old(out)@.len() { all.len() as int } else { old(out)@.len() as int }
            &&& final(out)@.len() == old(out)@.len()
            &&& forall|k: int| 0 <= k < r ==> #[trigger] final(out)@[k] == Some(all[k] as usize)
            &&& forall|k: int| r <= k < old(out)@.len() ==> #[trigger] final(out)@[k] == old(out)@[k]
        }),
{
    let _n = data.len();
    let context = ScanContext::new(signature, alignment, hints, ScanMode::Single);
    proof {
        lemma_find_all_from_first(context, data@, 0, 0, alignment.spec_stride() as int);
    }
    context.find_all_bounded(data, 0, out)
}

/// `a` comes before `b` when byte pairs are ordered by their first byte,
/// then their second.
pub open spec fn spec_pair_lt(a: (u8, u8), b: (u8, u8)) -> bool {
    a.0 < b.0 || (a.0 == b.0 && a.1 < b.1)
}

/// The pairs of a frequency table are strictly increasing.
pub open spec fn spec_pairs_sorted(pairs: Seq<(u8, u8)>) -> bool {
    forall|i: int, j: int| 0 <= i < j < pairs.len() ==> spec_pair_lt(#[trigger] pairs[i], #[trigger] pairs[j])
}

/// The rating of a byte pair in a frequency table: the score listed with the
/// pair, or the number of scores (as `u16`) for a pair the table lacks.
pub open spec fn spec_pair_score(pairs: Seq<(u8, u8)>, scores: Seq<u16>, key: (u8, u8)) -> u16 {
    if exists|k: int| 0 <= k < pairs.len() && pairs[k] == key {
        scores[choose|k: int| 0 <= k < pairs.len() && pairs[k] == key]
    } else {
        scores.len() as u16
    }
}

/// The rating of the pair of fully masked bytes at `i` of `sig`.
pub open spec fn spec_score_at(sig: Seq<SignatureElement>, pairs: Seq<(u8, u8)>, scores: Seq<u16>, i: int) -> u16 {
    spec_pair_score(pairs, scores, (sig[i].spec_value(), sig[i + 1].spec_value()))
}

/// How many pair positions of a signature of `len` elements the hints let
/// the choice look at: only the first with `PAIR0`, all of them otherwise.
pub open spec fn spec_examined(len: int, hint: ScanHint) -> int {
    if len < 2 {
        0
    } else if hint.spec_contains(ScanHint::spec_pair0()) {
        1
    } else {
        len - 1
    }
}

/// `i` is the pair the hints choose: a full pair among the examined
/// positions; with the x86-64 hint the best rated one (the earliest among
/// equally rated), otherwise the first one.
pub open spec fn spec_is_hinted_pair(
    sig: Seq<SignatureElement>,
    hint: ScanHint,
    pairs: Seq<(u8, u8)>,
    scores: Seq<u16>,
    i: int,
) -> bool {
    let end = spec_examined(sig.len() as int, hint);
    &&& 0 <= i < end
    &&& spec_full_pair(sig, i)
    &&& hint.spec_contains(ScanHint::spec_x86_64()) ==> forall|j: int|
        0 <= j < end && spec_full_pair(sig, j) ==> spec_score_at(sig, pairs, scores, j) <= spec_score_at(
            sig,
            pairs,
            scores,
            i,
        ) && (spec_score_at(sig, pairs, scores, j) == spec_score_at(sig, pairs, scores, i) ==> i <= j)
    &&& !hint.spec_contains(ScanHint::spec_x86_64()) ==> forall|j: int| 0 <= j < i ==> !spec_full_pair(sig, j)
}

fn pair_lt(a: (u8, u8), b: (u8, u8)) -> (r: bool)
    ensures
        r == spec_pair_lt(a, b),
{
    a.0 < b.0 || (a.0 == b.0 && a.1 < b.1)
}

/// Binary search for `key` in a strictly increasing table.
pub fn find_pair(pairs: &[(u8, u8)], key: (u8, u8)) -> (r: Option<usize>)
    requires
        spec_pairs_sorted(pairs@),
    ensures
        match r {
            Some(k) => k < pairs@.len() && pairs@[k as int] == key,
            None => forall|k: int| 0 <= k < pairs@.len() ==> pairs@[k] != key,
        },
{
    let mut lo: usize = 0;
    let mut hi: usize = pairs.len();
    while lo < hi
        invariant
            spec_pairs_sorted(pairs@),
            0 <= lo <= hi <= pairs@.len(),
            forall|k: int| 0 <= k < lo ==> spec_pair_lt(#[trigger] pairs@[k], key),
            forall|k: int| hi <= k < pairs@.len() ==> spec_pair_lt(key, #[trigger] pairs@[k]),
        decreases hi - lo,
    {
        let mid = lo + (hi - lo) / 2;
        let p = pairs[mid];
        if pair_lt(p, key) {
            assert forall|k: int| 0 <= k < mid + 1 implies spec_pair_lt(#[trigger] pairs@[k], key) by {
                if k < mid {
                    assert(spec_pair_lt(pairs@[k], pairs@[mid as int]));
                }
            }
            lo = mid + 1;
        } else if pair_lt(key, p) {
            assert forall|k: int| mid <= k < pairs@.len() implies spec_pair_lt(key, #[trigger] pairs@[k]) by {
                if k > mid {
                    assert(spec_pair_lt(pairs@[mid as int], pairs@[k]));
                }
            }
            hi = mid;
        } else {
            return Some(mid);
        }
    }
    None
}

/// The rating of `key` in the table.
fn pair_score(pairs: &[(u8, u8)], scores: &[u16], key: (u8, u8)) -> (r: u16)
    requires
        spec_pairs_sorted(pairs@),
        pairs@.len() <= scores@.len(),
    ensures
        r == spec_pair_score(pairs@, scores@, key),
{
    match find_pair(pairs, key) {
        Some(k) => {
            proof {
                let c = choose|c: int| 0 <= c < pairs@.len() && pairs@[c] == key;
                if c < k {
                    assert(spec_pair_lt(pairs@[c], pairs@[k as int]));
                } else if c > k {
                    assert(spec_pair_lt(pairs@[k as int], pairs@[c]));
                }
            }
            scores[k]
        },
        None => scores.len() as u16,
    }
}

/// Chooses the pair of fully masked elements that an x86-64 scan compares
/// first: among the examined positions (only the first one with `PAIR0`)
/// the pair rated best by the frequency table (`pairs` ascending, `scores`
/// the rating of each), the earliest among equally rated ones.  Without the
/// x86-64 hint the first full pair is taken.
pub fn apply_hints_x86_64(sig: &[SignatureElement], hint: ScanHint, pairs: &[(u8, u8)], scores: &[u16]) -> (r: Option<usize>)
    requires
        spec_pairs_sorted(pairs@),
        pairs@.len() <= scores@.len(),
    ensures
        match r {
            Some(i) => spec_is_hinted_pair(sig@, hint, pairs@, scores@, i as int),
            None => forall|j: int| 0 <= j < spec_examined(sig@.len() as int, hint) ==> !spec_full_pair(sig@, j),
        },
{
    let pair0 = hint.contains(ScanHint::pair0());
    let x86 = hint.contains(ScanHint::x86_64());
    let len = sig.len();
    let ghost end = spec_examined(len as int, hint);
    let stop: usize = if len < 2 {
        0
    } else if pair0 {
        1
    } else {
        len - 1
    };
    assert(stop == end);
    let mut best: Option<(usize, u16)> = None;
    let mut i: usize = 0;
    while i < stop
        invariant
            len == sig@.len(),
            stop == end,
            end == spec_examined(len as int, hint),
            x86 == hint.spec_contains(ScanHint::spec_x86_64()),
            spec_pairs_sorted(pairs@),
            pairs@.len() <= scores@.len(),
            0 <= i <= stop,
            stop <= len,
            x86 || best is None,
            match best {
                None => forall|j: int| 0 <= j < i ==> !spec_full_pair(sig@, j),
                Some((bi, bs)) => {
                    &&& bi < i
                    &&& spec_full_pair(sig@, bi as int)
                    &&& bs == spec_score_at(sig@, pairs@, scores@, bi as int)
                    &&& forall|j: int|
                        0 <= j < i && spec_full_pair(sig@, j) ==> spec_score_at(sig@, pairs@, scores@, j) <= bs && (
                        spec_score_at(sig@, pairs@, scores@, j) == bs ==> bi <= j)
                },
            },
        decreases stop - i,
    {
        let a = sig[i];
        let b = sig[i + 1];
        if a.is_all() && b.is_all() {
            if !x86 {
                return Some(i);
            }
            let score = pair_score(pairs, scores, (a.value(), b.value()));
            match best {
                Some((_, best_score)) => {
                    if score > best_score {
                        best = Some((i, score));
                    }
                },
                None => {
                    best = Some((i, score));
                },
            }
        }
        i = i + 1;
    }
    match best {
        Some((idx, _)) => Some(idx),
        None => None,
    }
}


/// The single match `find_pattern` reports is the first offset of the
/// list `find_all_pattern` reports, for every alignment.
pub proof fn lemma_find_pattern_is_first_of_all(data: Seq<u8>, sig: Seq<SignatureElement>, stride: int)
    requires
        stride >= 1,
        sig.len() >= 1,
    ensures
        match spec_first_match(data, sig, 0) {
            Some(p) => spec_find_all(data, sig, 0, stride).len() > 0 && spec_find_all(data, sig, 0, stride)[0] == p,
            None => spec_find_all(data, sig, 0, stride).len() == 0,
        },
{
    if data.len() == 0 {
        assert(spec_first_match(data, sig, 0) is None);
    }
}


/// The first offset in `[start, end - sig.len()]` where `sig` matches: the
/// first match of the bytes before `end`.
pub open spec fn spec_first_match_in(data: Seq<u8>, sig: Seq<SignatureElement>, start: int, end: int) -> Option<int> {
    spec_first_match(data.take(end), sig, start)
}

pub(crate) proof fn lemma_matches_at_take(data: Seq<u8>, sig: Seq<SignatureElement>, end: int, p: int)
    requires
        0 <= end <= data.len(),
    ensures
        spec_matches_at(data.take(end), sig, p) <==> (spec_matches_at(data, sig, p) && p + sig.len() <= end),
{
    if spec_matches_at(data, sig, p) && p + sig.len() <= end {
        assert forall|j: int| 0 <= j < sig.len() implies #[trigger] sig[j].spec_matches(data.take(end)[p + j]) by {
            assert(data.take(end)[p + j] == data[p + j]);
            assert(sig[j].spec_matches(data[p + j]));
        }
    }
    if spec_matches_at(data.take(end), sig, p) {
        assert forall|j: int| 0 <= j < sig.len() implies #[trigger] sig[j].spec_matches(data[p + j]) by {
            assert(data.take(end)[p + j] == data[p + j]);
            assert(sig[j].spec_matches(data.take(end)[p + j]));
        }
    }
}

/// A match in the bytes of `data` from `b` to `e` is a match in `data`,
/// `b` bytes further on.
pub(crate) proof fn lemma_matches_at_part(data: Seq<u8>, sig: Seq<SignatureElement>, b: int, e: int, q: int)
    requires
        0 <= b <= e <= data.len(),
    ensures
        spec_matches_at(data.subrange(b, e), sig, q) <==> (q >= 0 && spec_matches_at(data, sig, q + b) && q + b
            + sig.len() <= e),
{
    let part = data.subrange(b, e);
    if q >= 0 && spec_matches_at(data, sig, q + b) && q + b + sig.len() <= e {
        assert forall|j: int| 0 <= j < sig.len() implies #[trigger] sig[j].spec_matches(part[q + j]) by {
            assert(part[q + j] == data[q + b + j]);
            assert(sig[j].spec_matches(data[(q + b) + j]));
        }
    }
    if spec_matches_at(part, sig, q) {
        assert forall|j: int| 0 <= j < sig.len() implies #[trigger] sig[j].spec_matches(data[(q + b) + j]) by {
            assert(part[q + j] == data[q + b + j]);
            assert(sig[j].spec_matches(part[q + j]));
        }
    }
}

/// The first match in the bytes of `data` from `b` to `e`, shifted by `b`,
/// is the first match in `data` between those bounds.
pub(crate) proof fn lemma_first_match_part(data: Seq<u8>, sig: Seq<SignatureElement>, b: int, e: int)
    requires
        0 <= b <= e <= data.len(),
    ensures
        match spec_first_match(data.subrange(b, e), sig, 0) {
            Some(p) => Some(p + b),
            None => None,
        } == spec_first_match_in(data, sig, b, e),
{
    let part = data.subrange(b, e);
    lemma_first_match_facts(part, sig, 0);
    match spec_first_match(part, sig, 0) {
        Some(p) => {
            lemma_matches_at_part(data, sig, b, e, p);
            lemma_matches_at_take(data, sig, e, p + b);
            assert forall|q: int| b <= q < p + b implies !spec_matches_at(data.take(e), sig, q) by {
                lemma_matches_at_part(data, sig, b, e, q - b);
                lemma_matches_at_take(data, sig, e, q);
            }
            lemma_first_match_is(data.take(e), sig, b, p + b);
        },
        None => {
            assert forall|q: int| b <= q implies !spec_matches_at(data.take(e), sig, q) by {
                lemma_matches_at_part(data, sig, b, e, q - b);
                lemma_matches_at_take(data, sig, e, q);
            }
            lemma_first_match_none(data.take(e), sig, b);
        },
    }
}

impl<'a> ScanContext<'a> {
    /// Scans the bytes of `data` from offset `begin` up to `end` (at
    /// address `base + begin` and on) with the scanner of the context's
    /// mode; the result is an offset into `data`.
    pub fn scan_range(&self, data: &[u8], base: usize, begin: usize, end: usize) -> (r: ConstScanResult)
        requires
            self.wf(),
            begin <= end <= data@.len(),
            base + data@.len() <= usize::MAX,
        ensures
            spec_opt_int(r@) == match self.spec_scan(data@.subrange(begin as int, end as int), base + begin) {
                Some(p) => Some(p + begin),
                None => None,
            },
            self.spec_finds_first() ==> spec_opt_int(r@) == spec_first_match_in(data@, self.signature@, begin as int, end as int),
            r@ matches Some(p) ==> begin <= p && p + self.signature@.len() <= end && spec_matches_at(
                data@,
                self.signature@,
                p as int,
            ),
    {
        let part = vstd::slice::slice_subrange(data, begin, end);
        let r = self.scan(part, base + begin);
        proof {
            lemma_first_match_part(data@, self.signature@, begin as int, end as int);
        }
        match r.get() {
            Some(p) => {
                proof {
                    lemma_matches_at_part(data@, self.signature@, begin as int, end as int, p as int);
                }
                ConstScanResult::new(p + begin)
            },
            None => ConstScanResult::null(),
        }
    }
}

impl<'a> ScanContext<'a> {
    /// What a scan of the bytes from `start` to the end finds (they lie at
    /// address `base + start`), as an offset into `data`.
    pub open spec fn spec_scan_from(&self, data: Seq<u8>, base: int, start: int) -> Option<int> {
        match self.spec_scan(data.subrange(start, data.len() as int), base + start) {
            Some(p) => Some(p + start),
            None => None,
        }
    }

    /// The offsets that repeated scans report: a scan from `start`, then a
    /// scan from one stride past what it found, and so on, while the next
    /// start lies inside the data.
    pub open spec fn spec_find_all_from(&self, data: Seq<u8>, base: int, start: int, stride: int) -> Seq<int>
        decreases (if 0 <= start <= data.len() { data.len() + 1 - start } else { 0 }),
    {
        if stride < 1 || start < 0 || start >= data.len() {
            seq![]
        } else {
            match self.spec_scan_from(data, base, start) {
                None => seq![],
                Some(p) => if p < start {
                    seq![]
                } else {
                    seq![p] + self.spec_find_all_from(data, base, p + stride, stride)
                },
            }
        }
    }
}

/// With the scalar scanner, and with every scanner under `X1` alignment, a
/// scan finds the first match.
pub proof fn lemma_scan_finds_first(ctx: ScanContext, data: Seq<u8>, base: int)
    requires
        ctx.wf(),
        ctx.spec_finds_first(),
    ensures
        ctx.spec_scan(data, base) == spec_first_match(data, ctx.signature@, 0),
{
    let sig = ctx.signature@;
    let c = ctx.spec_compare_index() as int;
    if sig.len() > data.len() {
        lemma_first_match_none(data, sig, 0);
    } else {
        match ctx.mode {
            ScanMode::Single => {},
            ScanMode::Sse => {
                crate::arch::lemma_block_scan_finds_first(data, base, sig, c, 16);
            },
            ScanMode::Avx2 => {
                crate::arch::lemma_block_scan_finds_first(data, base, sig, c, 32);
            },
            ScanMode::Avx512 => {
                crate::arch::lemma_block_scan_finds_first(data, base, sig, c, 64);
            },
            ScanMode::Neon => {
                crate::arch::lemma_block_scan_finds_first(data, base, sig, c, 16);
            },
        }
    }
}

/// With the scalar scanner, and with every scanner under `X1` alignment, a
/// scan from `start` finds the first match at or after `start`.
pub proof fn lemma_scan_from_finds_first(ctx: ScanContext, data: Seq<u8>, base: int, start: int)
    requires
        ctx.wf(),
        ctx.spec_finds_first(),
        0 <= start <= data.len(),
    ensures
        ctx.spec_scan_from(data, base, start) == spec_first_match(data, ctx.signature@, start),
{
    let n = data.len() as int;
    lemma_scan_finds_first(ctx, data.subrange(start, n), base + start);
    lemma_first_match_part(data, ctx.signature@, start, n);
    assert(data.take(n) =~= data);
}

/// With the scalar scanner, and with every scanner under `X1` alignment,
/// repeated scans report what `spec_find_all` describes.
pub proof fn lemma_find_all_from_first(ctx: ScanContext, data: Seq<u8>, base: int, start: int, stride: int)
    requires
        ctx.wf(),
        ctx.spec_finds_first(),
    ensures
        ctx.spec_find_all_from(data, base, start, stride) == spec_find_all(data, ctx.signature@, start, stride),
    decreases (if 0 <= start <= data.len() { data.len() + 1 - start } else { 0 }),
{
    if stride < 1 || start < 0 || start >= data.len() {
    } else {
        lemma_scan_from_finds_first(ctx, data, base, start);
        lemma_first_match_facts(data, ctx.signature@, start);
        match spec_first_match(data, ctx.signature@, start) {
            None => {},
            Some(p) => {
                lemma_find_all_from_first(ctx, data, base, p + stride, stride);
            },
        }
    }
}

/// The chunks a scan of `len` bytes is split into for `num_threads`
/// workers: each worker starts `len / num_threads` bytes after the last
/// and reads `sig_len - 1` bytes past its share, so that every match lies
/// whole in the chunk of the worker whose share holds its start; the last
/// worker reads to the end.
pub open spec fn spec_chunk(len: int, sig_len: int, num_threads: int, i: int) -> (int, int) {
    let size = len / num_threads;
    let b = i * size;
    let e = if i == num_threads - 1 {
        len
    } else if b + size + sig_len - 1 > len {
        len
    } else {
        b + size + sig_len - 1
    };
    (b, e)
}

/// Splits a scan into chunks for parallel workers, or `None` when it is not
/// worth it: under a mebibyte of data, or a single worker.
pub fn parallel_plan(len: usize, sig_len: usize, num_threads: usize) -> (r: Option<Vec<(usize, usize)>>)
    requires
        1 <= sig_len <= len,
    ensures
        (len < 1024 * 1024 || num_threads <= 1) ==> r is None,
        !(len < 1024 * 1024 || num_threads <= 1) ==> (r matches Some(v) && v@.len() == num_threads && forall|i: int|
            0 <= i < num_threads ==> (#[trigger] v@[i]).0 as int == spec_chunk(len as int, sig_len as int, num_threads as int, i).0
                && v@[i].1 as int == spec_chunk(len as int, sig_len as int, num_threads as int, i).1),
{
    if len < 1024 * 1024 || num_threads <= 1 {
        return None;
    }
    let size = len / num_threads;
    let mut chunks: Vec<(usize, usize)> = Vec::new();
    let mut i: usize = 0;
    while i < num_threads
        invariant
            num_threads >= 2,
            size == len / num_threads,
            1 <= sig_len <= len,
            0 <= i <= num_threads,
            chunks@.len() == i,
            forall|k: int|
                0 <= k < i ==> (#[trigger] chunks@[k]).0 as int == spec_chunk(len as int, sig_len as int, num_threads as int, k).0
                    && chunks@[k].1 as int == spec_chunk(len as int, sig_len as int, num_threads as int, k).1,
        decreases num_threads - i,
    {
        assert(i * size <= len) by (nonlinear_arith)
            requires
                i < num_threads,
                size == len / num_threads,
                num_threads >= 2,
        {
            assert(size * num_threads <= len);
            assert(i * size <= num_threads * size);
        }
        let b = i * size;
        if i < num_threads - 1 {
            assert(i * size + size <= len) by (nonlinear_arith)
                requires
                    i < num_threads - 1,
                    size == len / num_threads,
                    num_threads >= 2,
            {
                assert(size * num_threads <= len);
                assert(i * size + size == (i + 1) * size);
                assert((i + 1) * size <= num_threads * size);
            }
        }
        let e = if i == num_threads - 1 {
            len
        } else if sig_len - 1 > len - b - size {
            len
        } else {
            b + size + (sig_len - 1)
        };
        chunks.push((b, e));
        i = i + 1;
    }
    Some(chunks)
}

/// The first of `results` that found something, in order, as an offset;
/// `None` when none did.
pub open spec fn spec_first_found(results: Seq<ConstScanResult>) -> Option<usize>
    decreases results.len(),
{
    if results.len() == 0 {
        None
    } else if results[0]@ is Some {
        results[0]@
    } else {
        spec_first_found(results.drop_first())
    }
}

/// The first found result is that of the first result that found
/// something, when there is one, and nothing otherwise.
pub proof fn lemma_first_found_is(results: Seq<ConstScanResult>)
    ensures
        (forall|i: int| 0 <= i < results.len() ==> (#[trigger] results[i])@ is None) ==> spec_first_found(results) is None,
        forall|i: int|
            0 <= i < results.len() && (#[trigger] results[i])@ is Some && (forall|j: int| 0 <= j < i ==> (#[trigger] results[j])@ is None)
                ==> spec_first_found(results) == results[i]@,
    decreases results.len(),
{
    if results.len() > 0 {
        let rest = results.drop_first();
        lemma_first_found_is(rest);
        assert forall|i: int|
            0 <= i < results.len() && (#[trigger] results[i])@ is Some && (forall|j: int| 0 <= j < i ==> (#[trigger] results[j])@ is None)
            implies spec_first_found(results) == results[i]@ by {
            if i > 0 {
                assert(results[0]@ is None);
                assert(rest[i - 1] == results[i]);
                assert forall|j: int| 0 <= j < i - 1 implies (#[trigger] rest[j])@ is None by {
                    assert(rest[j] == results[j + 1]);
                }
            }
        }
        if forall|i: int| 0 <= i < results.len() ==> (#[trigger] results[i])@ is None {
            assert(results[0]@ is None);
            assert forall|i: int| 0 <= i < rest.len() implies (#[trigger] rest[i])@ is None by {
                assert(rest[i] == results[i + 1]);
            }
        }
    }
}

/// The first result that found something, in order.
pub fn first_found(results: &[ConstScanResult]) -> (r: ConstScanResult)
    ensures
        r@ == spec_first_found(results@),
{
    let n = results.len();
    let mut i: usize = 0;
    assert(results@.skip(0) =~= results@);
    while i < n
        invariant
            n == results@.len(),
            0 <= i <= n,
            spec_first_found(results@) == spec_first_found(results@.skip(i as int)),
        decreases n - i,
    {
        let ghost tail = results@.skip(i as int);
        assert(tail[0] == results@[i as int]);
        if results[i].has_result() {
            return results[i];
        }
        assert(tail.drop_first() =~= results@.skip(i + 1));
        i = i + 1;
    }
    assert(results@.skip(n as int) =~= Seq::<ConstScanResult>::empty());
    ConstScanResult::null()
}

/// What the scan of chunk `i` of a parallel plan finds.
pub open spec fn spec_chunk_found(data: Seq<u8>, sig: Seq<SignatureElement>, num_threads: int, i: int) -> Option<int> {
    let c = spec_chunk(data.len() as int, sig.len() as int, num_threads, i);
    spec_first_match_in(data, sig, c.0, c.1)
}

proof fn lemma_parallel_chunks_wide(data: Seq<u8>, sig: Seq<SignatureElement>, num_threads: int)
    requires
        sig.len() >= 1,
        sig.len() <= data.len(),
        num_threads >= 2,
        data.len() >= num_threads,
    ensures
        spec_first_match(data, sig, 0) is None ==> forall|i: int|
            0 <= i < num_threads ==> (#[trigger] spec_chunk_found(data, sig, num_threads, i)) is None,
        spec_first_match(data, sig, 0) matches Some(p) ==> exists|i: int|
            0 <= i < num_threads && #[trigger] spec_chunk_found(data, sig, num_threads, i) == Some(p) && forall|j: int|
                0 <= j < i ==> (#[trigger] spec_chunk_found(data, sig, num_threads, j)) is None,
{
    let len = data.len() as int;
    let m = sig.len() as int;
    let size = len / num_threads;
    assert(size >= 1 && size * num_threads <= len && len < size * num_threads + num_threads) by (nonlinear_arith)
        requires
            size == len / num_threads,
            num_threads >= 2,
            len >= num_threads,
    ;
    lemma_first_match_facts(data, sig, 0);
    // The share of chunk i is [i * size, (i + 1) * size), the last share runs to the end.
    assert forall|i: int| 0 <= i < num_threads implies spec_chunk(len, m, num_threads, i).0 == i * size && (
    #[trigger] spec_chunk(len, m, num_threads, i)).1 <= len && 0 <= i * size <= len by {
        assert(0 <= i * size <= (num_threads - 1) * size) by (nonlinear_arith)
            requires
                0 <= i < num_threads,
                size >= 1,
        ;
        assert((num_threads - 1) * size <= len) by (nonlinear_arith)
            requires
                size * num_threads <= len,
                size >= 1,
        ;
    }
    // Every chunk's matches are matches of the whole data.
    assert forall|i: int, q: int|
        0 <= i < num_threads && #[trigger] spec_matches_at(data.take(spec_chunk(len, m, num_threads, i).1), sig, q)
        implies spec_matches_at(data, sig, q) by {
        lemma_matches_at_take(data, sig, spec_chunk(len, m, num_threads, i).1, q);
    }
    match spec_first_match(data, sig, 0) {
        None => {
            assert forall|i: int| 0 <= i < num_threads implies (#[trigger] spec_chunk_found(data, sig, num_threads, i)) is None by {
                let c = spec_chunk(len, m, num_threads, i);
                assert forall|q: int| c.0 <= q implies !spec_matches_at(data.take(c.1), sig, q) by {
                    lemma_matches_at_take(data, sig, c.1, q);
                }
                lemma_first_match_none(data.take(c.1), sig, c.0);
            }
        },
        Some(p) => {
            // The chunk whose share holds p.
            let k = if p / size >= num_threads - 1 {
                num_threads - 1
            } else {
                p / size
            };
            assert(0 <= k < num_threads && k * size <= p && (k == num_threads - 1 || p < (k + 1) * size))
                by (nonlinear_arith)
                requires
                    size >= 1,
                    p >= 0,
                    num_threads >= 2,
                    k == if p / size >= num_threads - 1 {
                        num_threads - 1
                    } else {
                        p / size
                    },
            ;
            let ck = spec_chunk(len, m, num_threads, k);
            assert(ck.0 == k * size);
            // The match at p lies whole in chunk k.
            assert((k + 1) * size == k * size + size) by (nonlinear_arith);
            assert(p + m <= ck.1) by {
                if k < num_threads - 1 {
                    assert(p + m <= k * size + size + m - 1);
                }
            }
            lemma_matches_at_take(data, sig, ck.1, p);
            assert forall|q: int| ck.0 <= q < p implies !spec_matches_at(data.take(ck.1), sig, q) by {
                lemma_matches_at_take(data, sig, ck.1, q);
            }
            lemma_first_match_is(data.take(ck.1), sig, ck.0, p);
            // Earlier chunks find nothing: their matches would come before p.
            assert forall|j: int| 0 <= j < k implies spec_first_match_in(
                data,
                sig,
                spec_chunk(len, m, num_threads, j).0,
                spec_chunk(len, m, num_threads, j).1,
            ) is None by {
                let cj = spec_chunk(len, m, num_threads, j);
                assert(cj.0 == j * size);
                assert(cj.1 <= j * size + size + m - 1);
                assert((j + 1) * size <= k * size) by (nonlinear_arith)
                    requires
                        j < k,
                        size >= 1,
                ;
                assert((j + 1) * size == j * size + size) by (nonlinear_arith);
                assert forall|q: int| cj.0 <= q implies !spec_matches_at(data.take(cj.1), sig, q) by {
                    lemma_matches_at_take(data, sig, cj.1, q);
                    if spec_matches_at(data, sig, q) && q + m <= cj.1 {
                        assert(q < p);
                    }
                }
                lemma_first_match_none(data.take(cj.1), sig, cj.0);
            }
            assert(spec_chunk_found(data, sig, num_threads, k) == Some(p));
            assert forall|j: int| 0 <= j < k implies (#[trigger] spec_chunk_found(data, sig, num_threads, j)) is None by {
                let cj = spec_chunk(len, m, num_threads, j);
                assert(spec_first_match_in(data, sig, cj.0, cj.1) is None);
            }
        },
    }
}

/// Scanning the chunks of a parallel plan and taking the first chunk that
/// found something gives the first match of the whole data: the chunks'
/// shares cover every start offset once and in order, and each chunk reads
/// far enough for a match that starts in its share.
pub proof fn lemma_parallel_chunks_find_first(data: Seq<u8>, sig: Seq<SignatureElement>, num_threads: int)
    requires
        sig.len() >= 1,
        sig.len() <= data.len(),
        num_threads >= 2,
    ensures
        spec_first_match(data, sig, 0) is None ==> forall|i: int|
            0 <= i < num_threads ==> (#[trigger] spec_chunk_found(data, sig, num_threads, i)) is None,
        spec_first_match(data, sig, 0) matches Some(p) ==> exists|i: int|
            0 <= i < num_threads && #[trigger] spec_chunk_found(data, sig, num_threads, i) == Some(p) && forall|j: int|
                0 <= j < i ==> (#[trigger] spec_chunk_found(data, sig, num_threads, j)) is None,
{
    let len = data.len() as int;
    let m = sig.len() as int;
    if len >= num_threads {
        lemma_parallel_chunks_wide(data, sig, num_threads);
    } else {
        // With fewer bytes than workers every share is empty: only the last
        // chunk, which reads everything, can find a match.
        assert(len / num_threads == 0) by (nonlinear_arith)
            requires
                0 <= len < num_threads,
        ;
        assert forall|i: int| 0 <= i < num_threads - 1 implies (#[trigger] spec_chunk_found(data, sig, num_threads, i)) is None by {
            let c = spec_chunk(len, m, num_threads, i);
            assert(i * 0 == 0);
            assert(c.0 == 0 && c.1 == m - 1);
            assert forall|q: int| 0 <= q implies !#[trigger] spec_matches_at(data.take(m - 1), sig, q) by {}
            lemma_first_match_none(data.take(m - 1), sig, 0);
        }
        let last = num_threads - 1;
        let cl = spec_chunk(len, m, num_threads, last);
        assert(last * 0 == 0);
        assert(cl.0 == 0 && cl.1 == len);
        assert(data.take(len) =~= data);
        assert(spec_chunk_found(data, sig, num_threads, last) == spec_first_match(data, sig, 0));
    }
}

/// A parallel scan under `X1` alignment (or with the scalar scanner) finds
/// the first match of the whole data: when each chunk of the plan that
/// `parallel_plan` makes is scanned with `scan_range`, and `first_found`
/// takes the first chunk result that found something, the outcome is the
/// first match, whatever the number of workers.
pub proof fn lemma_parallel_scan_finds_first(
    ctx: ScanContext,
    data: Seq<u8>,
    num_threads: int,
    results: Seq<ConstScanResult>,
)
    requires
        ctx.wf(),
        ctx.spec_finds_first(),
        1 <= ctx.signature@.len() <= data.len(),
        num_threads >= 2,
        results.len() == num_threads,
        forall|i: int|
            0 <= i < num_threads ==> spec_opt_int((#[trigger] results[i])@) == spec_chunk_found(data, ctx.signature@, num_threads, i),
    ensures
        spec_opt_int(spec_first_found(results)) == spec_first_match(data, ctx.signature@, 0),
{
    let sig = ctx.signature@;
    lemma_parallel_chunks_find_first(data, sig, num_threads);
    lemma_first_found_is(results);
    match spec_first_match(data, sig, 0) {
        None => {
            assert forall|i: int| 0 <= i < results.len() implies (#[trigger] results[i])@ is None by {
                assert(spec_chunk_found(data, sig, num_threads, i) is None);
            }
        },
        Some(p) => {
            let i = choose|i: int|
                0 <= i < num_threads && #[trigger] spec_chunk_found(data, sig, num_threads, i) == Some(p) && forall|j: int|
                    0 <= j < i ==> (#[trigger] spec_chunk_found(data, sig, num_threads, j)) is None;
            assert(spec_opt_int(results[i]@) == Some(p));
            assert forall|j: int| 0 <= j < i implies (#[trigger] results[j])@ is None by {
                assert(spec_chunk_found(data, sig, num_threads, j) is None);
            }
        },
    }
}

/// What the bounded scan writes agrees with the list of all matches: it
/// writes as many as fit, those are the first matches in order, and the
/// other slots keep their contents.
pub proof fn lemma_bounded_agrees_with_all(
    data: Seq<u8>,
    sig: Seq<SignatureElement>,
    stride: int,
    all: Seq<usize>,
    before: Seq<Option<usize>>,
    after: Seq<Option<usize>>,
    r: int,
)
    requires
        all.map_values(|p: usize| p as int) == spec_find_all(data, sig, 0, stride),
        ({
            let found = spec_find_all(data, sig, 0, stride);
            &&& r == if found.len() < before.len() { found.len() as int } else { before.len() as int }
            &&& after.len() == before.len()
            &&& forall|k: int| 0 <= k < r ==> #[trigger] after[k] == Some(found[k] as usize)
            &&& forall|k: int| r <= k < before.len() ==> #[trigger] after[k] == before[k]
        }),
    ensures
        r == if all.len() < before.len() { all.len() as int } else { before.len() as int },
        after.take(r) == all.take(r).map_values(|p: usize| Some(p)),
        after.skip(r) == before.skip(r),
{
    let found = spec_find_all(data, sig, 0, stride);
    assert(all.len() == found.len());
    assert forall|k: int| 0 <= k < r implies after.take(r)[k] == all.take(r).map_values(|p: usize| Some(p))[k] by {
        assert(found[k] == all.map_values(|p: usize| p as int)[k]);
    }
    assert(after.take(r) =~= all.take(r).map_values(|p: usize| Some(p)));
    assert(after.skip(r) =~= before.skip(r));
}

} // verus!

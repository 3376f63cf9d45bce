//! Loaded modules of the process: their extent and segments from the
//! program headers, their executable bytes, and the rights of memory
//! regions from the process's memory map.  Enumerating the loaded modules
//! and reading the memory map are left to the caller, which hands the
//! program headers and the lines of the map to these functions.
use vstd::prelude::*;
use crate::elf::SectionTable;
use crate::platform::pf_r;
use crate::platform::pf_w;
use crate::platform::pf_x;
use crate::platform::prot_exec;
use crate::platform::prot_read;
use crate::platform::prot_write;
use crate::platform::pt_load;
use crate::protection::Protection;
use vstd::string::StringSliceAdditionalSpecFns;

verus! {

/// A module loaded into the process, known by its base address.
#[derive(Clone, Copy, Debug, PartialEq, Eq, Structural)]
pub struct Module {
    base_address: usize,
}

impl Module {
    pub closed spec fn spec_address(self) -> usize {
        self.base_address
    }

    /// A module is known by its address alone: two modules are the same
    /// exactly when their addresses are.
    pub proof fn lemma_same_address(a: Module, b: Module)
        ensures
            (a == b) <==> (a.spec_address() == b.spec_address()),
    {
    }

    /// The module loaded at `base_address`.
    pub fn new(base_address: usize) -> (r: Self)
        ensures
            r.spec_address() == base_address,
    {
        Module { base_address }
    }

    /// Where the module is loaded.
    pub fn address(&self) -> (r: usize)
        ensures
            r == self.spec_address(),
    {
        self.base_address
    }

    /// The module's image in memory, given its program headers: its address
    /// and its size, the largest rounded end of a loadable segment (0 when
    /// it has none).
    pub fn get_module_data(&self, headers: &[ProgramHeader]) -> (r: (usize, usize))
        requires
            spec_headers_in_range(headers@),
        ensures
            r.0 == self.spec_address(),
            r.1 as int == spec_module_extent(headers@, headers@.len() as int),
    {
        (self.base_address, module_extent(headers))
    }

    /// The address and size of the section `name`, given the module's
    /// section table.
    pub fn get_section_data(&self, sections: &SectionTable, name: &str) -> (r: Option<(usize, usize)>)
        ensures
            r == match crate::elf::spec_lookup(sections@, name.spec_bytes()) {
                Some(k) => Some((sections@[k].1, sections@[k].2)),
                None => None,
            },
    {
        sections.get_section_data(name.as_bytes())
    }

    /// The loadable segments of the module, given its program headers, in
    /// the order a walk over them visits them.
    pub fn for_each_segment(&self, headers: &[ProgramHeader]) -> (r: Vec<Segment>)
        requires
            forall|k: int| 0 <= k < headers@.len() ==> self.spec_address() + (#[trigger] headers@[k]).p_vaddr <= usize::MAX,
        ensures
            r@ == spec_segments(self.spec_address(), headers@),
    {
        load_segments(self.base_address, headers)
    }
}

/// `addr` rounded up with the mask of `alignment` (0 counts as 1).
pub open spec fn spec_align_up(addr: usize, alignment: usize) -> int {
    let align: usize = if alignment == 0 {
        1
    } else {
        alignment
    };
    ((addr + align - 1) as usize & !((align - 1) as usize)) as int
}

/// Rounds `addr` up to a multiple of `alignment` (a power of two; 0 counts
/// as 1).
pub fn fast_align_up(addr: usize, alignment: usize) -> (r: usize)
    requires
        addr + (if alignment == 0 { 1 } else { alignment }) - 1 <= usize::MAX,
    ensures
        r as int == spec_align_up(addr, alignment),
{
    let align = if alignment == 0 {
        1
    } else {
        alignment
    };
    (addr + (align - 1)) & !(align - 1)
}

/// The fields of a program header that the module logic reads.
#[derive(Clone, Copy, Debug, PartialEq, Eq, Structural)]
pub struct ProgramHeader {
    pub p_type: u32,
    pub p_flags: u32,
    pub p_vaddr: usize,
    pub p_memsz: usize,
    pub p_align: usize,
}

/// The end of a loadable segment, rounded up to its alignment.
pub open spec fn spec_segment_end(h: ProgramHeader) -> int {
    spec_align_up((h.p_vaddr + h.p_memsz) as usize, h.p_align)
}

/// The largest rounded segment end among the loadable headers of the
/// first `n` headers (0 when there is none).
pub open spec fn spec_module_extent(headers: Seq<ProgramHeader>, n: int) -> int
    decreases n,
{
    if n <= 0 {
        0
    } else {
        let prev = spec_module_extent(headers, n - 1);
        let h = headers[n - 1];
        if h.p_type == 1 && spec_segment_end(h) > prev {
            spec_segment_end(h)
        } else {
            prev
        }
    }
}

/// The headers' arithmetic stays in range: for each loadable header the end
/// of its memory, rounded up, fits in a `usize`.
pub open spec fn spec_headers_in_range(headers: Seq<ProgramHeader>) -> bool {
    forall|k: int|
        0 <= k < headers.len() && (#[trigger] headers[k]).p_type == 1 ==> headers[k].p_vaddr + headers[k].p_memsz
            + (if headers[k].p_align == 0 { 1 } else { headers[k].p_align }) - 1 <= usize::MAX
}

/// The size of a module's image: the largest end of a loadable segment,
/// each rounded up to its alignment.
pub fn module_extent(headers: &[ProgramHeader]) -> (r: usize)
    requires
        spec_headers_in_range(headers@),
    ensures
        r as int == spec_module_extent(headers@, headers@.len() as int),
{
    let load = pt_load();
    let n = headers.len();
    let mut max: usize = 0;
    let mut i: usize = 0;
    while i < n
        invariant
            n == headers@.len(),
            load == 1,
            spec_headers_in_range(headers@),
            0 <= i <= n,
            max as int == spec_module_extent(headers@, i as int),
        decreases n - i,
    {
        let h = headers[i];
        if h.p_type == load {
            let end = fast_align_up(h.p_vaddr + h.p_memsz, h.p_align);
            if end > max {
                max = end;
            }
        }
        i = i + 1;
    }
    max
}

/// A loaded segment: where it lies and its rights.
#[derive(Clone, Copy, Debug, PartialEq, Eq, Structural)]
pub struct Segment {
    pub start: usize,
    pub size: usize,
    pub protection: Protection,
}

/// The rights of a segment from its flags: read (4), write (2), execute (1).
pub open spec fn spec_segment_protection(p_flags: u32) -> Protection {
    Protection::spec_from_bits(
        ((if p_flags & 4 != 0 { 1int } else { 0int }) + (if p_flags & 2 != 0 { 2int } else { 0int }) + (if p_flags
            & 1 != 0 {
            4int
        } else {
            0int
        })) as u8,
    )
}

/// A segment holds a right exactly when its program header flags have the
/// flag for it: read 4, write 2, execute 1; it holds no other right.
pub proof fn lemma_segment_protection_bits(p_flags: u32)
    ensures
        spec_segment_protection(p_flags).spec_contains(Protection::spec_read()) == (p_flags & 4 != 0),
        spec_segment_protection(p_flags).spec_contains(Protection::spec_write()) == (p_flags & 2 != 0),
        spec_segment_protection(p_flags).spec_contains(Protection::spec_execute()) == (p_flags & 1 != 0),
        spec_segment_protection(p_flags).spec_bits() < 8,
{
    crate::protection::lemma_rights_of(p_flags & 4 != 0, p_flags & 2 != 0, p_flags & 1 != 0);
}

/// The rights of a segment from its program header flags.
pub fn segment_protection(p_flags: u32) -> (r: Protection)
    ensures
        r == spec_segment_protection(p_flags),
        r.spec_contains(Protection::spec_read()) == (p_flags & 4 != 0),
        r.spec_contains(Protection::spec_write()) == (p_flags & 2 != 0),
        r.spec_contains(Protection::spec_execute()) == (p_flags & 1 != 0),
        r.spec_bits() < 8,
{
    proof {
        lemma_segment_protection_bits(p_flags);
    }
    let mut bits: u8 = 0;
    if p_flags & pf_r() != 0 {
        bits = bits + 1;
    }
    if p_flags & pf_w() != 0 {
        bits = bits + 2;
    }
    if p_flags & pf_x() != 0 {
        bits = bits + 4;
    }
    let r = Protection::from_bits(bits);
    proof {
        let expected = ((if p_flags & 4 != 0 { 1int } else { 0int }) + (if p_flags & 2 != 0 { 2int } else { 0int })
            + (if p_flags & 1 != 0 { 4int } else { 0int })) as u8;
        assert(bits == expected);
        Protection::lemma_from_bits(expected);
        Protection::lemma_bits_eq(r, spec_segment_protection(p_flags));
    }
    r
}

/// The segment of a loadable header of the module loaded at `base`.
pub open spec fn spec_segment_of(base: usize, h: ProgramHeader) -> Segment {
    Segment { start: (base + h.p_vaddr) as usize, size: h.p_memsz, protection: spec_segment_protection(h.p_flags) }
}

/// The loadable segments of the module loaded at `base`, in header order.
pub open spec fn spec_segments(base: usize, headers: Seq<ProgramHeader>) -> Seq<Segment>
    decreases headers.len(),
{
    if headers.len() == 0 {
        seq![]
    } else {
        let rest = spec_segments(base, headers.drop_last());
        let h = headers.last();
        if h.p_type == 1 {
            rest.push(spec_segment_of(base, h))
        } else {
            rest
        }
    }
}

/// Segment `s` reports program header `k` of the module loaded at `base`:
/// the header is loadable (type 1), and `s` starts at `base` plus its
/// virtual address, has its size in memory, and holds a right exactly when
/// the header's flags have the flag for it (read 4, write 2, execute 1),
/// and no other right.
pub open spec fn spec_segment_reports(base: usize, headers: Seq<ProgramHeader>, s: Segment, k: int) -> bool {
    &&& 0 <= k < headers.len()
    &&& headers[k].p_type == 1
    &&& s.start == (base + headers[k].p_vaddr) as usize
    &&& s.size == headers[k].p_memsz
    &&& s.protection.spec_contains(Protection::spec_read()) == (headers[k].p_flags & 4 != 0)
    &&& s.protection.spec_contains(Protection::spec_write()) == (headers[k].p_flags & 2 != 0)
    &&& s.protection.spec_contains(Protection::spec_execute()) == (headers[k].p_flags & 1 != 0)
    &&& s.protection.spec_bits() < 8
}

/// Segment `s` reports some program header of `headers`.
pub open spec fn spec_reports_a_header(base: usize, headers: Seq<ProgramHeader>, s: Segment) -> bool {
    exists|k: int| #[trigger] spec_segment_reports(base, headers, s, k)
}

/// Every loadable segment of a module reports one of its loadable program
/// headers, with the rights the header's flags give.
pub proof fn lemma_segments_report(base: usize, headers: Seq<ProgramHeader>)
    ensures
        forall|i: int|
            0 <= i < spec_segments(base, headers).len() ==> spec_reports_a_header(
                base,
                headers,
                #[trigger] spec_segments(base, headers)[i],
            ),
    decreases headers.len(),
{
    let all = spec_segments(base, headers);
    if headers.len() > 0 {
        let init = headers.drop_last();
        lemma_segments_report(base, init);
        let rest = spec_segments(base, init);
        assert forall|i: int| 0 <= i < rest.len() implies spec_reports_a_header(base, headers, #[trigger] rest[i]) by {
            let k = choose|k: int| spec_segment_reports(base, init, rest[i], k);
            assert(init[k] == headers[k]);
            assert(spec_segment_reports(base, headers, rest[i], k));
        }
        let h = headers.last();
        if h.p_type == 1 {
            let s = spec_segment_of(base, h);
            lemma_segment_protection_bits(h.p_flags);
            assert(spec_segment_reports(base, headers, s, headers.len() - 1));
            assert forall|i: int| 0 <= i < all.len() implies spec_reports_a_header(base, headers, #[trigger] all[i]) by {
                if i < rest.len() {
                    assert(all[i] == rest[i]);
                } else {
                    assert(all[i] == s);
                }
            }
        } else {
            assert forall|i: int| 0 <= i < all.len() implies spec_reports_a_header(base, headers, #[trigger] all[i]) by {
                assert(all[i] == rest[i]);
            }
        }
    }
}

/// The loadable segments of the module loaded at `base`: each one's memory
/// starts at `base` plus its virtual address.
pub fn load_segments(base: usize, headers: &[ProgramHeader]) -> (r: Vec<Segment>)
    requires
        forall|k: int| 0 <= k < headers@.len() ==> base + (#[trigger] headers@[k]).p_vaddr <= usize::MAX,
    ensures
        r@ == spec_segments(base, headers@),
        forall|i: int| 0 <= i < r@.len() ==> spec_reports_a_header(base, headers@, #[trigger] r@[i]),
{
    proof {
        lemma_segments_report(base, headers@);
    }
    let load = pt_load();
    let n = headers.len();
    let mut out: Vec<Segment> = Vec::new();
    let mut i: usize = 0;
    assert(headers@.take(0) =~= Seq::<ProgramHeader>::empty());
    while i < n
        invariant
            n == headers@.len(),
            load == 1,
            forall|k: int| 0 <= k < headers@.len() ==> base + (#[trigger] headers@[k]).p_vaddr <= usize::MAX,
            0 <= i <= n,
            out@ == spec_segments(base, headers@.take(i as int)),
        decreases n - i,
    {
        let h = headers[i];
        assert(headers@.take(i + 1).drop_last() =~= headers@.take(i as int));
        assert(headers@.take(i + 1).last() == h);
        if h.p_type == load {
            out.push(Segment { start: base + h.p_vaddr, size: h.p_memsz, protection: segment_protection(h.p_flags) });
        }
        i = i + 1;
    }
    assert(headers@.take(n as int) =~= headers@);
    out
}

/// The protection that makes a section executable code: read and execute.
pub open spec fn spec_is_code(p: Protection) -> bool {
    p.spec_bits() == 5
}

/// A segment is read-only code: readable, executable, not writable, and not
/// empty.
pub open spec fn spec_is_code_segment(s: Segment) -> bool {
    &&& s.protection.spec_contains(Protection::spec_read())
    &&& !s.protection.spec_contains(Protection::spec_write())
    &&& s.protection.spec_contains(Protection::spec_execute())
    &&& s.size > 0
}

/// Where the executable code of a module lies: the section `.text` if the
/// table has it, else the first read-and-execute section with bytes, else
/// the first nonempty read-only code segment; `None` when there is none.
pub fn get_executable_data(sections: &SectionTable, segments: &[Segment]) -> (r: Option<(usize, usize)>)
    ensures
        match r {
            Some((start, size)) => {
                ||| (crate::elf::spec_lookup(sections@, seq![46u8, 116u8, 101u8, 120u8, 116u8]) matches Some(k)
                    && start == sections@[k].1 && size == sections@[k].2)
                ||| (crate::elf::spec_lookup(sections@, seq![46u8, 116u8, 101u8, 120u8, 116u8]) is None && exists|k: int|
                    0 <= k < sections@.len() && spec_is_code(#[trigger] sections@[k].3) && sections@[k].2 > 0
                        && start == sections@[k].1 && size == sections@[k].2 && forall|j: int|
                        0 <= j < k ==> !(spec_is_code(sections@[j].3) && sections@[j].2 > 0))
                ||| (crate::elf::spec_lookup(sections@, seq![46u8, 116u8, 101u8, 120u8, 116u8]) is None && (forall|k: int|
                    0 <= k < sections@.len() ==> !(spec_is_code(#[trigger] sections@[k].3) && sections@[k].2 > 0))
                    && exists|k: int|
                    0 <= k < segments@.len() && spec_is_code_segment(#[trigger] segments@[k]) && start
                        == segments@[k].start && size == segments@[k].size && forall|j: int|
                        0 <= j < k ==> !spec_is_code_segment(segments@[j]))
            },
            None => {
                &&& crate::elf::spec_lookup(sections@, seq![46u8, 116u8, 101u8, 120u8, 116u8]) is None
                &&& forall|k: int|
                    0 <= k < sections@.len() ==> !(spec_is_code(#[trigger] sections@[k].3) && sections@[k].2 > 0)
                &&& forall|k: int| 0 <= k < segments@.len() ==> !spec_is_code_segment(#[trigger] segments@[k])
            },
        },
{
    let text: [u8; 5] = [46u8, 116u8, 101u8, 120u8, 116u8];
    let text_slice = text.as_slice();
    assert(text_slice@ =~= seq![46u8, 116u8, 101u8, 120u8, 116u8]);
    if let Some((start, size)) = sections.get_section_data(text_slice) {
        return Some((start, size));
    }
    let n = sections.entries.len();
    let mut i: usize = 0;
    while i < n
        invariant
            n == sections@.len(),
            crate::elf::spec_lookup(sections@, seq![46u8, 116u8, 101u8, 120u8, 116u8]) is None,
            0 <= i <= n,
            forall|j: int| 0 <= j < i ==> !(spec_is_code(#[trigger] sections@[j].3) && sections@[j].2 > 0),
        decreases n - i,
    {
        let e = &sections.entries[i];
        assert(sections@[i as int] == e@);
        if e.protection.bits() == 5 && e.data_size > 0 {
            assert(spec_is_code(sections@[i as int].3) && sections@[i as int].2 > 0);
            return Some((e.data_start, e.data_size));
        }
        i = i + 1;
    }
    let m = segments.len();
    let mut k: usize = 0;
    while k < m
        invariant
            m == segments@.len(),
            crate::elf::spec_lookup(sections@, seq![46u8, 116u8, 101u8, 120u8, 116u8]) is None,
            forall|j: int| 0 <= j < sections@.len() ==> !(spec_is_code(#[trigger] sections@[j].3) && sections@[j].2 > 0),
            0 <= k <= m,
            forall|j: int| 0 <= j < k ==> !spec_is_code_segment(#[trigger] segments@[j]),
        decreases m - k,
    {
        let s = segments[k];
        if s.protection.contains(Protection::read()) && !s.protection.contains(Protection::write())
            && s.protection.contains(Protection::execute()) && s.size > 0 {
            assert(spec_is_code_segment(segments@[k as int]));
            return Some((s.start, s.size));
        }
        k = k + 1;
    }
    None
}

/// One line of the memory map: a range and its rights as protection bits.
#[derive(Clone, Copy, Debug, PartialEq, Eq, Structural)]
pub struct MapEntry {
    pub begin: usize,
    pub end: usize,
    pub prot: u32,
}

/// The value of a hex digit, if `c` is one.
pub open spec fn spec_hex_digit(c: u8) -> Option<int> {
    if 48 <= c <= 57 {
        Some(c - 48)
    } else if 97 <= c <= 102 {
        Some(c - 87)
    } else if 65 <= c <= 70 {
        Some(c - 55)
    } else {
        None
    }
}

/// The value of a string of hex digits, if it is one (read left to right).
pub open spec fn spec_hex_digits(s: Seq<u8>) -> Option<int>
    decreases s.len(),
{
    if s.len() == 0 {
        Some(0)
    } else {
        match (spec_hex_digits(s.drop_last()), spec_hex_digit(s.last())) {
            (Some(v), Some(d)) => Some(v * 16 + d),
            _ => None,
        }
    }
}

/// What `usize::from_str_radix(s, 16).unwrap_or(0)` gives: an optional
/// leading `+` followed by at least one hex digit reads as its value when
/// it fits in a `usize`; anything else reads as 0.
pub open spec fn spec_hex_or_zero(s: Seq<u8>) -> usize {
    let digits = if s.len() > 0 && s[0] == 43 {
        s.drop_first()
    } else {
        s
    };
    if digits.len() == 0 {
        0
    } else {
        match spec_hex_digits(digits) {
            Some(v) => if v <= usize::MAX {
                v as usize
            } else {
                0
            },
            None => 0,
        }
    }
}

/// The value of a hex digit.
fn hex_digit(c: u8) -> (r: Option<u8>)
    ensures
        match r {
            Some(d) => spec_hex_digit(c) == Some(d as int),
            None => spec_hex_digit(c) is None,
        },
{
    if 48 <= c && c <= 57 {
        Some(c - 48)
    } else if 97 <= c && c <= 102 {
        Some(c - 87)
    } else if 65 <= c && c <= 70 {
        Some(c - 55)
    } else {
        None
    }
}

proof fn lemma_hex_digits_none_prefix(s: Seq<u8>, k: int)
    requires
        0 <= k <= s.len(),
        spec_hex_digits(s.take(k)) is None,
    ensures
        spec_hex_digits(s) is None,
    decreases s.len() - k,
{
    if k < s.len() {
        assert(s.take(k + 1).drop_last() =~= s.take(k));
        lemma_hex_digits_none_prefix(s, k + 1);
    } else {
        assert(s.take(k) =~= s);
    }
}

proof fn lemma_hex_digits_grow(s: Seq<u8>, k: int)
    requires
        0 <= k <= s.len(),
        spec_hex_digits(s.take(k)) matches Some(v) && v > usize::MAX,
    ensures
        !(spec_hex_digits(s) matches Some(w) && w <= usize::MAX),
    decreases s.len() - k,
{
    if k < s.len() {
        assert(s.take(k + 1).drop_last() =~= s.take(k));
        assert(s.take(k + 1).last() == s[k]);
        if spec_hex_digit(s[k]) is None {
            lemma_hex_digits_none_prefix(s, k + 1);
        } else {
            lemma_hex_digits_grow(s, k + 1);
        }
    } else {
        assert(s.take(k) =~= s);
    }
}

/// Reads a hex number as `usize::from_str_radix(s, 16).unwrap_or(0)` does.
pub fn parse_hex_or_zero(s: &[u8]) -> (r: usize)
    ensures
        r == spec_hex_or_zero(s@),
{
    let n = s.len();
    let start: usize = if n > 0 && s[0] == 43 {
        1
    } else {
        0
    };
    let ghost digits = if s@.len() > 0 && s@[0] == 43 {
        s@.drop_first()
    } else {
        s@
    };
    assert(digits =~= s@.skip(start as int));
    if start == n {
        return 0;
    }
    assert(digits.len() > 0);
    let mut value: usize = 0;
    let mut i: usize = start;
    assert(digits.take(0) =~= Seq::<u8>::empty());
    while i < n
        invariant
            n == s@.len(),
            start <= i <= n,
            start < n,
            digits =~= s@.skip(start as int),
            digits == (if s@.len() > 0 && s@[0] == 43 { s@.drop_first() } else { s@ }),
            digits.len() > 0,
            spec_hex_digits(digits.take(i - start)) == Some(value as int),
        decreases n - i,
    {
        assert(digits.take(i - start + 1).drop_last() =~= digits.take(i - start));
        assert(digits.take(i - start + 1).last() == s@[i as int]);
        let d = match hex_digit(s[i]) {
            Some(d) => d,
            None => {
                proof {
                    lemma_hex_digits_none_prefix(digits, i - start + 1);
                }
                return 0;
            },
        };
        if value > (usize::MAX - d as usize) / 16 {
            proof {
                assert(value * 16 + d > usize::MAX) by (nonlinear_arith)
                    requires
                        value > (usize::MAX - d) / 16,
                        d < 16,
                ;
                lemma_hex_digits_grow(digits, i - start + 1);
            }
            return 0;
        }
        assert(value * 16 + d <= usize::MAX) by (nonlinear_arith)
            requires
                value <= (usize::MAX - d) / 16,
        ;
        value = value * 16 + d as usize;
        i = i + 1;
    }
    assert(digits.take(n - start) =~= digits);
    value
}

/// The offset of the first occurrence of byte `c` in `s`, or its length.
pub open spec fn spec_find_byte(s: Seq<u8>, c: u8) -> int
    decreases s.len(),
{
    if s.len() == 0 || s[0] == c {
        0
    } else {
        1 + spec_find_byte(s.drop_first(), c)
    }
}

proof fn lemma_find_byte_is(s: Seq<u8>, c: u8, m: int)
    requires
        0 <= m <= s.len(),
        forall|k: int| 0 <= k < m ==> s[k] != c,
        m == s.len() || s[m] == c,
    ensures
        spec_find_byte(s, c) == m,
    decreases m,
{
    if m > 0 {
        lemma_find_byte_is(s.drop_first(), c, m - 1);
    }
}

/// The number of occurrences of byte `c` in `s`.
pub open spec fn spec_count_byte(s: Seq<u8>, c: u8) -> int
    decreases s.len(),
{
    if s.len() == 0 {
        0
    } else {
        spec_count_byte(s.drop_last(), c) + (if s.last() == c { 1int } else { 0int })
    }
}

/// The protection bits of the rights field of a map line: `r` first,
/// `w` second and `x` third.
pub open spec fn spec_rights_bits(f: Seq<u8>) -> u32 {
    ((if f.len() > 0 && f[0] == 114 { 1int } else { 0int }) + (if f.len() > 1 && f[1] == 119 { 2int } else { 0int })
        + (if f.len() > 2 && f[2] == 120 { 4int } else { 0int })) as u32
}

/// How a line of `/proc/self/maps` reads: the first space-separated field
/// is `begin-end` in hex, the second holds the rights.  `None` when the line
/// has no space or the first field does not hold exactly one `-`.
pub open spec fn spec_parse_map_line(line: Seq<u8>) -> Option<MapEntry> {
    let f0_len = spec_find_byte(line, 32);
    if f0_len >= line.len() {
        None
    } else {
        let f0 = line.take(f0_len);
        let rest = line.skip(f0_len + 1);
        let f1 = rest.take(spec_find_byte(rest, 32));
        if spec_count_byte(f0, 45) != 1 {
            None
        } else {
            let dash = spec_find_byte(f0, 45);
            Some(
                MapEntry {
                    begin: spec_hex_or_zero(f0.take(dash)),
                    end: spec_hex_or_zero(f0.skip(dash + 1)),
                    prot: spec_rights_bits(f1),
                },
            )
        }
    }
}

fn find_byte(s: &[u8], from: usize, c: u8) -> (r: usize)
    requires
        from <= s@.len(),
    ensures
        from <= r <= s@.len(),
        r == from + spec_find_byte(s@.skip(from as int), c),
{
    let n = s.len();
    let mut i = from;
    while i < n && s[i] != c
        invariant
            n == s@.len(),
            from <= i <= n,
            forall|k: int| from <= k < i ==> s@[k] != c,
        decreases n - i,
    {
        i = i + 1;
    }
    proof {
        lemma_find_byte_is(s@.skip(from as int), c, i - from);
    }
    i
}

fn count_byte(s: &[u8], c: u8) -> (r: usize)
    ensures
        r as int == spec_count_byte(s@, c),
{
    let n = s.len();
    let mut count: usize = 0;
    let mut i: usize = 0;
    assert(s@.take(0) =~= Seq::<u8>::empty());
    while i < n
        invariant
            n == s@.len(),
            0 <= i <= n,
            count <= i,
            count as int == spec_count_byte(s@.take(i as int), c),
        decreases n - i,
    {
        assert(s@.take(i + 1).drop_last() =~= s@.take(i as int));
        if s[i] == c {
            count = count + 1;
        }
        i = i + 1;
    }
    assert(s@.take(n as int) =~= s@);
    count
}

/// Reads one line of `/proc/self/maps`.
pub fn parse_map_line(line: &str) -> (r: Option<MapEntry>)
    ensures
        r == spec_parse_map_line(line.spec_bytes()),
{
    let b = line.as_bytes();
    let n = b.len();
    let f0_end = find_byte(b, 0, 32);
    assert(b@.skip(0) =~= b@);
    if f0_end >= n {
        return None;
    }
    let f1_end = find_byte(b, f0_end + 1, 32);
    let f0 = vstd::slice::slice_subrange(b, 0, f0_end);
    let f1 = vstd::slice::slice_subrange(b, f0_end + 1, f1_end);
    assert(f0@ =~= b@.take(f0_end as int));
    assert(f1@ =~= b@.skip(f0_end + 1).take(spec_find_byte(b@.skip(f0_end + 1), 32)));
    if count_byte(f0, 45) != 1 {
        return None;
    }
    let dash = find_byte(f0, 0, 45);
    assert(f0@.skip(0) =~= f0@);
    proof {
        if dash == f0@.len() {
            lemma_count_absent(f0@, 45);
        }
    }
    let lo = vstd::slice::slice_subrange(f0, 0, dash);
    let hi = vstd::slice::slice_subrange(f0, dash + 1, f0.len());
    assert(lo@ =~= f0@.take(dash as int));
    assert(hi@ =~= f0@.skip(dash + 1));
    let mut prot: u32 = 0;
    if f1.len() > 0 && f1[0] == 114 {
        prot = prot + prot_read();
    }
    if f1.len() > 1 && f1[1] == 119 {
        prot = prot + prot_write();
    }
    if f1.len() > 2 && f1[2] == 120 {
        prot = prot + prot_exec();
    }
    Some(MapEntry { begin: parse_hex_or_zero(lo), end: parse_hex_or_zero(hi), prot })
}

proof fn lemma_count_absent(s: Seq<u8>, c: u8)
    requires
        spec_find_byte(s, c) == s.len(),
    ensures
        spec_count_byte(s, c) == 0,
    decreases s.len(),
{
    if s.len() > 0 {
        assert(s[0] != c);
        lemma_find_byte_full(s, c);
        lemma_count_zero(s, c);
    }
}

proof fn lemma_find_byte_full(s: Seq<u8>, c: u8)
    requires
        spec_find_byte(s, c) == s.len(),
    ensures
        forall|k: int| 0 <= k < s.len() ==> s[k] != c,
    decreases s.len(),
{
    if s.len() > 0 {
        lemma_find_byte_full(s.drop_first(), c);
        assert forall|k: int| 0 <= k < s.len() implies s[k] != c by {
            if k > 0 {
                assert(s[k] == s.drop_first()[k - 1]);
            }
        }
    }
}

proof fn lemma_count_zero(s: Seq<u8>, c: u8)
    requires
        forall|k: int| 0 <= k < s.len() ==> s[k] != c,
    ensures
        spec_count_byte(s, c) == 0,
    decreases s.len(),
{
    if s.len() > 0 {
        lemma_count_zero(s.drop_last(), c);
    }
}


/// How the memory map is walked to check a region `[current, end)`: skip
/// entries until one contains `current`; from then on each entry must
/// start where the previous one ended (else the walk stops) and carry all
/// of `flags` (else the answer is no); the walk succeeds once an entry
/// reaches `end`.  At the end of the map the answer is whether `end` was
/// reached.
pub open spec fn spec_walk(entries: Seq<MapEntry>, i: int, current: usize, found: bool, end: usize, flags: u32) -> bool
    decreases entries.len() - i,
{
    if i < 0 || i >= entries.len() {
        current >= end
    } else {
        let e = entries[i];
        if !found && !(e.begin <= current && current < e.end) {
            spec_walk(entries, i + 1, current, false, end, flags)
        } else if found && current != e.begin {
            current >= end
        } else if e.prot & flags != flags {
            false
        } else if e.end >= end {
            true
        } else {
            spec_walk(entries, i + 1, e.end, true, end, flags)
        }
    }
}

/// Whether every byte of the region of `len` bytes at `start` is mapped
/// with all the protection bits `flags`, according to the memory map
/// `entries` (in the order of its lines).  An empty region has no rights.
pub fn region_has_flags(start: usize, len: usize, entries: &[MapEntry], flags: u32) -> (r: bool)
    requires
        start + len <= usize::MAX,
    ensures
        r == (len > 0 && spec_walk(entries@, 0, start, false, (start + len) as usize, flags)),
{
    if len == 0 {
        return false;
    }
    let end = start + len;
    let n = entries.len();
    let mut current = start;
    let mut found = false;
    let mut i: usize = 0;
    while i < n
        invariant
            n == entries@.len(),
            0 <= i <= n,
            len > 0,
            end == start + len,
            spec_walk(entries@, 0, start, false, end, flags) == spec_walk(entries@, i as int, current, found, end, flags),
        decreases n - i,
    {
        let e = entries[i];
        if !found && !(e.begin <= current && current < e.end) {
            i = i + 1;
        } else if found && current != e.begin {
            return current >= end;
        } else if e.prot & flags != flags {
            return false;
        } else if e.end >= end {
            return true;
        } else {
            current = e.end;
            found = true;
            i = i + 1;
        }
    }
    current >= end
}

/// Whether the region of `len` bytes at `start` may be read, according to
/// the memory map `entries`.
pub fn is_readable(start: usize, len: usize, entries: &[MapEntry]) -> (r: bool)
    requires
        start + len <= usize::MAX,
    ensures
        r == (len > 0 && spec_walk(entries@, 0, start, false, (start + len) as usize, 1)),
{
    region_has_flags(start, len, entries, prot_read())
}

/// Whether the region of `len` bytes at `start` may be written, according
/// to the memory map `entries`.
pub fn is_writable(start: usize, len: usize, entries: &[MapEntry]) -> (r: bool)
    requires
        start + len <= usize::MAX,
    ensures
        r == (len > 0 && spec_walk(entries@, 0, start, false, (start + len) as usize, 2)),
{
    region_has_flags(start, len, entries, prot_write())
}

/// Whether the region of `len` bytes at `start` may be executed, according
/// to the memory map `entries`.
pub fn is_executable(start: usize, len: usize, entries: &[MapEntry]) -> (r: bool)
    requires
        start + len <= usize::MAX,
    ensures
        r == (len > 0 && spec_walk(entries@, 0, start, false, (start + len) as usize, 4)),
{
    region_has_flags(start, len, entries, prot_exec())
}

/// The next step of checking a range against the memory regions the
/// system reports one at a time: the check goes on at the end of the
/// reported region, or ends with its answer.
#[derive(Clone, Copy, Debug, PartialEq, Eq, Structural)]
pub enum RegionStep {
    Granted,
    Refused,
    Next(usize),
}

} // verus!

//! The section table of a 64-bit ELF file, as the module loader reads it:
//! the file header names where the section headers lie, one section header
//! names the string table, and every allocated section with an address, a
//! size and a valid UTF-8 name becomes an entry.  Reading the bytes from the
//! file is left to the caller; these functions decide what the bytes mean.
use vstd::prelude::*;
use crate::bytes::read_uint;
use crate::bytes::spec_value_in;
use crate::bytes::ByteOrder;
use crate::protection::Protection;

verus! {

/// What the file header says about the section headers.
#[derive(Clone, Copy, Debug, PartialEq, Eq, Structural)]
pub struct ElfHeaderInfo {
    /// File offset of the section headers.
    pub shoff: usize,
    /// Size of one section header.
    pub shentsize: usize,
    /// Number of section headers.
    pub shnum: usize,
    /// Index of the header of the section name table.
    pub shstrndx: usize,
    /// The byte order the file's integers are read in.
    pub order: ByteOrder,
}

/// The value of `width` bytes of `b` at `off`, read in `order`.
pub open spec fn spec_field(order: ByteOrder, b: Seq<u8>, off: int, width: int) -> int {
    spec_value_in(order, b.subrange(off, off + width))
}

/// The header facts of a 64-bit ELF file header (the first 64 bytes), or
/// `None` when the magic, the class, or the section header fields are
/// unusable (no offset, no headers, headers under 64 bytes, or a name table
/// index past the headers).
pub open spec fn spec_elf_header(ehdr: Seq<u8>, order: ByteOrder) -> Option<ElfHeaderInfo> {
    if ehdr.len() != 64 || ehdr[0] != 0x7f || ehdr[1] != 0x45 || ehdr[2] != 0x4c || ehdr[3] != 0x46 || ehdr[4]
        != 2 {
        None
    } else {
        let shoff = spec_field(order, ehdr, 40, 8) as usize;
        let shentsize = spec_field(order, ehdr, 58, 2) as usize;
        let shnum = spec_field(order, ehdr, 60, 2) as usize;
        let shstrndx = spec_field(order, ehdr, 62, 2) as usize;
        if shoff == 0 || shnum == 0 || shentsize < 64 || shstrndx >= shnum {
            None
        } else {
            Some(ElfHeaderInfo { shoff, shentsize, shnum, shstrndx, order })
        }
    }
}

/// Reads the file header, whose integers are stored in `order` (the
/// machine's own order, for the files of the running system).
pub fn parse_elf_header(ehdr: &[u8], order: ByteOrder) -> (r: Option<ElfHeaderInfo>)
    requires
        ehdr@.len() == 64,
    ensures
        r == spec_elf_header(ehdr@, order),
        r matches Some(info) ==> info.shentsize < 0x10000 && info.shnum < 0x10000,
{
    if ehdr[0] != 0x7f || ehdr[1] != 0x45 || ehdr[2] != 0x4c || ehdr[3] != 0x46 || ehdr[4] != 2 {
        return None;
    }
    let shoff = read_uint(ehdr, 40, 8, order) as usize;
    let shentsize = read_uint(ehdr, 58, 2, order) as usize;
    let shnum = read_uint(ehdr, 60, 2, order) as usize;
    let shstrndx = read_uint(ehdr, 62, 2, order) as usize;
    proof {
        crate::bytes::lemma_value_bound(order, ehdr@.subrange(58, 60));
        crate::bytes::lemma_value_bound(order, ehdr@.subrange(60, 62));
        reveal_with_fuel(crate::bytes::pow256, 3);
    }
    if shoff == 0 || shnum == 0 || shentsize < 64 || shstrndx >= shnum {
        return None;
    }
    Some(ElfHeaderInfo { shoff, shentsize, shnum, shstrndx, order })
}

/// The number of bytes the section headers take.
pub fn section_headers_size(info: &ElfHeaderInfo) -> (r: usize)
    requires
        info.shentsize < 0x10000,
        info.shnum < 0x10000,
    ensures
        r == info.shnum * info.shentsize,
{
    assert(info.shnum * info.shentsize < 0x1_0000_0000) by (nonlinear_arith)
        requires
            info.shentsize < 0x10000,
            info.shnum < 0x10000,
    ;
    assert(info.shnum * info.shentsize <= usize::MAX);
    info.shnum * info.shentsize
}

/// Where the section name table lies in the file: the offset and size
/// fields (at 24 and 32) of the header at index `shstrndx`.
pub open spec fn spec_string_table(info: ElfHeaderInfo, sections: Seq<u8>) -> (usize, usize) {
    let h = info.shstrndx * info.shentsize;
    (spec_field(info.order, sections, h + 24, 8) as usize, spec_field(info.order, sections, h + 32, 8) as usize)
}

/// Reads where the section name table lies.
pub fn string_table_location(info: &ElfHeaderInfo, sections: &[u8]) -> (r: (usize, usize))
    requires
        spec_elf_header_ok(*info),
        sections@.len() == info.shnum * info.shentsize,
    ensures
        r == spec_string_table(*info, sections@),
{
    let _ = sections.len();
    proof {
        assert(info.shstrndx * info.shentsize + 64 <= info.shnum * info.shentsize) by (nonlinear_arith)
            requires
                info.shstrndx < info.shnum,
                info.shentsize >= 64,
        ;
        assert(info.shnum * info.shentsize < 0x1_0000_0000) by (nonlinear_arith)
            requires
                info.shentsize < 0x10000,
                info.shnum < 0x10000,
        ;
    }
    let h = info.shstrndx * info.shentsize;
    let off = read_uint(sections, h + 24, 8, info.order) as usize;
    let size = read_uint(sections, h + 32, 8, info.order) as usize;
    (off, size)
}

/// The header facts that `parse_elf_header` accepts.
pub open spec fn spec_elf_header_ok(info: ElfHeaderInfo) -> bool {
    &&& info.shnum > 0
    &&& info.shentsize >= 64
    &&& info.shstrndx < info.shnum
    &&& info.shentsize < 0x10000
    &&& info.shnum < 0x10000
}

/// One section of the table: name, first byte in memory, size, rights.
pub struct SectionEntry {
    pub name: Vec<u8>,
    pub data_start: usize,
    pub data_size: usize,
    pub protection: Protection,
}

impl View for SectionEntry {
    type V = (Seq<u8>, usize, usize, Protection);

    open spec fn view(&self) -> (Seq<u8>, usize, usize, Protection) {
        (self.name@, self.data_start, self.data_size, self.protection)
    }
}

/// The offset of the first zero byte of `s`, or its length.
pub open spec fn spec_nul_pos(s: Seq<u8>) -> int
    decreases s.len(),
{
    if s.len() == 0 || s[0] == 0 {
        0
    } else {
        1 + spec_nul_pos(s.drop_first())
    }
}

/// The rights of an allocated section: always read, write with flag 1,
/// execute with flag 4.
pub open spec fn spec_section_protection(flags: u64) -> Protection {
    Protection::spec_from_bits(
        (1 + (if flags & 1 != 0 { 2int } else { 0int }) + (if flags & 4 != 0 { 4int } else { 0int })) as u8,
    )
}

/// The entry that section header `i` yields, if any: it needs room for a
/// whole header, a nonzero address and size, a name offset inside the name
/// table, the allocated flag (2), and a valid UTF-8 name (the bytes up to
/// the first zero).  Its memory starts at `base` plus its address.
pub open spec fn spec_section_at(
    info: ElfHeaderInfo,
    sections: Seq<u8>,
    strings: Seq<u8>,
    base: usize,
    i: int,
) -> Option<(Seq<u8>, usize, usize, Protection)> {
    let off = i * info.shentsize;
    if off + 64 > sections.len() {
        None
    } else {
        let name = spec_field(info.order, sections, off, 4) as usize;
        let flags = spec_field(info.order, sections, off + 8, 8) as u64;
        let addr = spec_field(info.order, sections, off + 16, 8) as usize;
        let size = spec_field(info.order, sections, off + 32, 8) as usize;
        if addr == 0 || size == 0 || name >= strings.len() {
            None
        } else if flags & 2 == 0 {
            None
        } else {
            let rest = strings.skip(name as int);
            let nm = rest.take(spec_nul_pos(rest));
            if !vstd::utf8::valid_utf8(nm) {
                None
            } else {
                Some((nm, base.wrapping_add(addr), size, spec_section_protection(flags)))
            }
        }
    }
}

/// The index of the entry named `name`, searching from the front.
pub open spec fn spec_lookup(t: Seq<(Seq<u8>, usize, usize, Protection)>, name: Seq<u8>) -> Option<int>
    decreases t.len(),
{
    if t.len() == 0 {
        None
    } else if t[0].0 == name {
        Some(0)
    } else {
        match spec_lookup(t.drop_first(), name) {
            Some(k) => Some(k + 1),
            None => None,
        }
    }
}

/// Adds an entry, replacing the entry of the same name if there is one.
pub open spec fn spec_table_insert(
    t: Seq<(Seq<u8>, usize, usize, Protection)>,
    e: (Seq<u8>, usize, usize, Protection),
) -> Seq<(Seq<u8>, usize, usize, Protection)> {
    match spec_lookup(t, e.0) {
        Some(k) => t.update(k, e),
        None => t.push(e),
    }
}

/// The table after the first `n` section headers.
pub open spec fn spec_section_table(
    info: ElfHeaderInfo,
    sections: Seq<u8>,
    strings: Seq<u8>,
    base: usize,
    n: int,
) -> Seq<(Seq<u8>, usize, usize, Protection)>
    decreases n,
{
    if n <= 0 {
        seq![]
    } else {
        let t = spec_section_table(info, sections, strings, base, n - 1);
        match spec_section_at(info, sections, strings, base, n - 1) {
            Some(e) => spec_table_insert(t, e),
            None => t,
        }
    }
}

pub proof fn lemma_lookup_found(t: Seq<(Seq<u8>, usize, usize, Protection)>, name: Seq<u8>, i: int)
    requires
        0 <= i < t.len(),
        t[i].0 == name,
        forall|k: int| 0 <= k < i ==> t[k].0 != name,
    ensures
        spec_lookup(t, name) == Some(i),
    decreases i,
{
    if i > 0 {
        lemma_lookup_found(t.drop_first(), name, i - 1);
    }
}

pub proof fn lemma_lookup_none(t: Seq<(Seq<u8>, usize, usize, Protection)>, name: Seq<u8>)
    requires
        forall|k: int| 0 <= k < t.len() ==> t[k].0 != name,
    ensures
        spec_lookup(t, name) is None,
    decreases t.len(),
{
    if t.len() > 0 {
        lemma_lookup_none(t.drop_first(), name);
    }
}

/// The section table, its entries kept in the order they were first added.
pub struct SectionTable {
    pub entries: Vec<SectionEntry>,
}

impl View for SectionTable {
    type V = Seq<(Seq<u8>, usize, usize, Protection)>;

    open spec fn view(&self) -> Seq<(Seq<u8>, usize, usize, Protection)> {
        self.entries@.map_values(|e: SectionEntry| e@)
    }
}

/// Whether two byte strings are equal.
pub fn bytes_equal(a: &[u8], b: &[u8]) -> (r: bool)
    ensures
        r == (a@ == b@),
{
    if a.len() != b.len() {
        return false;
    }
    let n = a.len();
    let mut i: usize = 0;
    while i < n
        invariant
            n == a@.len(),
            n == b@.len(),
            0 <= i <= n,
            forall|k: int| 0 <= k < i ==> a@[k] == b@[k],
        decreases n - i,
    {
        if a[i] != b[i] {
            return false;
        }
        i = i + 1;
    }
    assert(a@ =~= b@);
    true
}

impl SectionTable {
    /// The empty table.
    pub fn new() -> (r: Self)
        ensures
            r@ == Seq::<(Seq<u8>, usize, usize, Protection)>::empty(),
    {
        SectionTable { entries: Vec::new() }
    }

    /// The position of the entry named `name`.
    pub fn lookup(&self, name: &[u8]) -> (r: Option<usize>)
        ensures
            spec_opt(r) == spec_lookup(self@, name@),
            r matches Some(k) ==> k < self@.len(),
    {
        let n = self.entries.len();
        let mut i: usize = 0;
        while i < n
            invariant
                n == self.entries@.len(),
                0 <= i <= n,
                forall|k: int| 0 <= k < i ==> self@[k].0 != name@,
            decreases n - i,
        {
            if bytes_equal(self.entries[i].name.as_slice(), name) {
                proof {
                    lemma_lookup_found(self@, name@, i as int);
                }
                return Some(i);
            }
            i = i + 1;
        }
        proof {
            lemma_lookup_none(self@, name@);
        }
        None
    }

    /// Adds an entry, replacing the one of the same name.
    pub fn insert(&mut self, e: SectionEntry)
        ensures
            final(self)@ == spec_table_insert(old(self)@, e@),
    {
        match self.lookup(e.name.as_slice()) {
            Some(k) => {
                let ghost before = self@;
                self.entries.set(k, e);
                assert(self@ =~= before.update(k as int, e@));
            },
            None => {
                let ghost before = self@;
                self.entries.push(e);
                assert(self@ =~= before.push(e@));
            },
        }
    }

    /// Where the section named `name` lies: its first byte and its size.
    pub fn get_section_data(&self, name: &[u8]) -> (r: Option<(usize, usize)>)
        ensures
            r == match spec_lookup(self@, name@) {
                Some(k) => Some((self@[k].1, self@[k].2)),
                None => None,
            },
    {
        match self.lookup(name) {
            Some(k) => Some((self.entries[k].data_start, self.entries[k].data_size)),
            None => None,
        }
    }
}

/// An index as a mathematical integer.
pub open spec fn spec_opt(o: Option<usize>) -> Option<int> {
    match o {
        Some(k) => Some(k as int),
        None => None,
    }
}

/// `std::str::from_utf8(bytes).is_ok()`: the standard library accepts
/// exactly the valid UTF-8 byte strings, which `valid_utf8` describes.
#[verifier::external_body]
pub(crate) fn is_utf8(bytes: &[u8]) -> (r: bool)
    ensures
        r == vstd::utf8::valid_utf8(bytes@),
{
    std::str::from_utf8(bytes).is_ok()
}

/// The entry of section header `i`.
fn section_at(info: &ElfHeaderInfo, sections: &[u8], strings: &[u8], base: usize, i: usize) -> (r: Option<SectionEntry>)
    requires
        spec_elf_header_ok(*info),
        i < info.shnum,
    ensures
        match r {
            Some(e) => spec_section_at(*info, sections@, strings@, base, i as int) == Some(e@),
            None => spec_section_at(*info, sections@, strings@, base, i as int) is None,
        },
{
    let _ = sections.len();
    let _ = strings.len();
    proof {
        assert(i * info.shentsize < 0x1_0000_0000) by (nonlinear_arith)
            requires
                i < info.shnum,
                info.shentsize < 0x10000,
                info.shnum < 0x10000,
        ;
    }
    let off = i * info.shentsize;
    if off > sections.len() || sections.len() - off < 64 {
        return None;
    }
    let name = read_uint(sections, off, 4, info.order) as usize;
    let flags = read_uint(sections, off + 8, 8, info.order);
    let addr = read_uint(sections, off + 16, 8, info.order) as usize;
    let size = read_uint(sections, off + 32, 8, info.order) as usize;
    if addr == 0 || size == 0 || name >= strings.len() {
        return None;
    }
    if flags & 2 == 0 {
        return None;
    }
    let n = strings.len();
    let ghost rest = strings@.skip(name as int);
    let mut end: usize = name;
    while end < n && strings[end] != 0
        invariant
            n == strings@.len(),
            name < n,
            name <= end <= n,
            rest == strings@.skip(name as int),
            forall|k: int| 0 <= k < end - name ==> rest[k] != 0,
        decreases n - end,
    {
        end = end + 1;
    }
    proof {
        lemma_nul_pos_is(rest, (end - name) as int);
    }
    let name_bytes = vstd::slice::slice_subrange(strings, name, end);
    assert(name_bytes@ =~= rest.take(spec_nul_pos(rest)));
    if !is_utf8(name_bytes) {
        return None;
    }
    let mut prot_bits: u8 = 1;
    if flags & 1 != 0 {
        prot_bits = prot_bits + 2;
    }
    if flags & 4 != 0 {
        prot_bits = prot_bits + 4;
    }
    let start = base.wrapping_add(addr);
    let protection = Protection::from_bits(prot_bits);
    let name_vec = vstd::slice::slice_to_vec(name_bytes);
    proof {
        let off_i = i as int * info.shentsize;
        assert(off == off_i);
        assert(name == spec_field(info.order, sections@, off_i, 4) as usize);
        assert(flags == spec_field(info.order, sections@, off_i + 8, 8) as u64);
        assert(addr == spec_field(info.order, sections@, off_i + 16, 8) as usize);
        assert(size == spec_field(info.order, sections@, off_i + 32, 8) as usize);
        assert(protection.spec_bits() == prot_bits);
        let expected = (1 + (if flags & 1 != 0 { 2int } else { 0int }) + (if flags & 4 != 0 { 4int } else { 0int })) as u8;
        assert(prot_bits == expected);
        Protection::lemma_from_bits(expected);
        Protection::lemma_bits_eq(protection, spec_section_protection(flags));
        assert(protection == spec_section_protection(flags));
        assert(name_vec@ == rest.take(spec_nul_pos(rest)));
    }
    Some(
        SectionEntry {
            name: name_vec,
            data_start: start,
            data_size: size,
            protection,
        },
    )
}

/// The first zero at `m` (or none before the end at `m`) makes `m` the
/// zero position.
pub proof fn lemma_nul_pos_is(s: Seq<u8>, m: int)
    requires
        0 <= m <= s.len(),
        forall|k: int| 0 <= k < m ==> s[k] != 0,
        m == s.len() || s[m] == 0,
    ensures
        spec_nul_pos(s) == m,
    decreases m,
{
    if m > 0 {
        lemma_nul_pos_is(s.drop_first(), m - 1);
    }
}

/// Entry `e` reports section header `i`: the header lies whole in the
/// headers, names an allocated section (flag 2) with a nonzero address and
/// size, and `e` lies at `base` plus that address, has that size, and holds
/// read always, write exactly when the header's flags have 1, execute
/// exactly when they have 4, and no other right.
pub open spec fn spec_entry_reports(
    info: ElfHeaderInfo,
    sections: Seq<u8>,
    base: usize,
    e: (Seq<u8>, usize, usize, Protection),
    i: int,
) -> bool {
    let off = i * info.shentsize;
    let flags = spec_field(info.order, sections, off + 8, 8) as u64;
    let addr = spec_field(info.order, sections, off + 16, 8) as usize;
    let size = spec_field(info.order, sections, off + 32, 8) as usize;
    &&& 0 <= i
    &&& off + 64 <= sections.len()
    &&& flags & 2 != 0
    &&& addr != 0
    &&& size != 0
    &&& e.1 == base.wrapping_add(addr)
    &&& e.2 == size
    &&& e.3.spec_contains(Protection::spec_read())
    &&& e.3.spec_contains(Protection::spec_write()) == (flags & 1 != 0)
    &&& e.3.spec_contains(Protection::spec_execute()) == (flags & 4 != 0)
    &&& e.3.spec_bits() < 8
}

/// Entry `e` reports one of the first `n` section headers.
pub open spec fn spec_reports_a_header(
    info: ElfHeaderInfo,
    sections: Seq<u8>,
    base: usize,
    e: (Seq<u8>, usize, usize, Protection),
    n: int,
) -> bool {
    exists|i: int| i < n && #[trigger] spec_entry_reports(info, sections, base, e, i)
}

/// The entry of a section header carries its place and size, and the
/// rights its flags give.
pub proof fn lemma_section_at_reports(info: ElfHeaderInfo, sections: Seq<u8>, strings: Seq<u8>, base: usize, i: int)
    requires
        0 <= i,
    ensures
        spec_section_at(info, sections, strings, base, i) matches Some(e) ==> spec_entry_reports(
            info,
            sections,
            base,
            e,
            i,
        ),
{
    let off = i * info.shentsize;
    let flags = spec_field(info.order, sections, off + 8, 8) as u64;
    crate::protection::lemma_rights_of(true, flags & 1 != 0, flags & 4 != 0);
    assert(spec_section_protection(flags) == Protection::spec_from_bits(
        ((if true { 1int } else { 0int }) + (if flags & 1 != 0 { 2int } else { 0int }) + (if flags & 4 != 0 {
            4int
        } else {
            0int
        })) as u8,
    ));
}

/// Every entry of the section table after the first `n` headers reports
/// one of those headers, with the rights its flags give.
pub proof fn lemma_section_table_reports(info: ElfHeaderInfo, sections: Seq<u8>, strings: Seq<u8>, base: usize, n: int)
    ensures
        forall|j: int|
            0 <= j < spec_section_table(info, sections, strings, base, n).len() ==> spec_reports_a_header(
                info,
                sections,
                base,
                #[trigger] spec_section_table(info, sections, strings, base, n)[j],
                n,
            ),
    decreases n,
{
    if n > 0 {
        lemma_section_table_reports(info, sections, strings, base, n - 1);
        let t = spec_section_table(info, sections, strings, base, n - 1);
        let all = spec_section_table(info, sections, strings, base, n);
        assert forall|j: int| 0 <= j < t.len() implies spec_reports_a_header(info, sections, base, #[trigger] t[j], n) by {
            let i = choose|i: int| i < n - 1 && #[trigger] spec_entry_reports(info, sections, base, t[j], i);
            assert(spec_entry_reports(info, sections, base, t[j], i));
        }
        match spec_section_at(info, sections, strings, base, n - 1) {
            Some(e) => {
                lemma_section_at_reports(info, sections, strings, base, n - 1);
                assert(spec_entry_reports(info, sections, base, e, n - 1));
                lemma_lookup_some(t, e.0);
                assert forall|j: int| 0 <= j < all.len() implies spec_reports_a_header(info, sections, base, #[trigger] all[j], n) by {
                    match spec_lookup(t, e.0) {
                        Some(k) => {
                            if j == k {
                                assert(all[j] == e);
                            } else {
                                assert(all[j] == t[j]);
                            }
                        },
                        None => {
                            if j < t.len() {
                                assert(all[j] == t[j]);
                            } else {
                                assert(all[j] == e);
                            }
                        },
                    }
                }
            },
            None => {
                assert forall|j: int| 0 <= j < all.len() implies spec_reports_a_header(info, sections, base, #[trigger] all[j], n) by {
                    assert(all[j] == t[j]);
                }
            },
        }
    }
}

/// Builds the section table from the section headers and the name table;
/// `base` is where the module is loaded.
pub fn collect_sections(info: &ElfHeaderInfo, sections: &[u8], strings: &[u8], base: usize) -> (r: SectionTable)
    requires
        spec_elf_header_ok(*info),
    ensures
        r@ == spec_section_table(*info, sections@, strings@, base, info.shnum as int),
        forall|j: int|
            0 <= j < r@.len() ==> spec_reports_a_header(*info, sections@, base, #[trigger] r@[j], info.shnum as int),
{
    proof {
        lemma_section_table_reports(*info, sections@, strings@, base, info.shnum as int);
    }
    let mut table = SectionTable::new();
    let mut i: usize = 0;
    while i < info.shnum
        invariant
            spec_elf_header_ok(*info),
            0 <= i <= info.shnum,
            table@ == spec_section_table(*info, sections@, strings@, base, i as int),
        decreases info.shnum - i,
    {
        match section_at(info, sections, strings, base, i) {
            Some(e) => {
                table.insert(e);
            },
            None => {},
        }
        i = i + 1;
    }
    table
}


/// No two entries share a name.
pub open spec fn spec_names_unique(t: Seq<(Seq<u8>, usize, usize, Protection)>) -> bool {
    forall|i: int, j: int| 0 <= i < j < t.len() ==> t[i].0 != t[j].0
}

proof fn lemma_lookup_some(t: Seq<(Seq<u8>, usize, usize, Protection)>, name: Seq<u8>)
    ensures
        spec_lookup(t, name) matches Some(k) ==> 0 <= k < t.len() && t[k].0 == name,
        spec_lookup(t, name) is None ==> forall|k: int| 0 <= k < t.len() ==> t[k].0 != name,
    decreases t.len(),
{
    if t.len() > 0 {
        lemma_lookup_some(t.drop_first(), name);
        if spec_lookup(t, name) is None {
            assert forall|k: int| 0 <= k < t.len() implies t[k].0 != name by {
                if k > 0 {
                    assert(t[k] == t.drop_first()[k - 1]);
                }
            }
        }
    }
}

/// Adding an entry keeps the names unique; afterwards looking up its name
/// finds exactly that entry, and every other name finds what it found
/// before.
pub proof fn lemma_table_insert(
    t: Seq<(Seq<u8>, usize, usize, Protection)>,
    e: (Seq<u8>, usize, usize, Protection),
    other: Seq<u8>,
)
    requires
        spec_names_unique(t),
    ensures
        spec_names_unique(spec_table_insert(t, e)),
        spec_lookup(spec_table_insert(t, e), e.0) matches Some(k) && spec_table_insert(t, e)[k] == e,
        other != e.0 ==> match (spec_lookup(spec_table_insert(t, e), other), spec_lookup(t, other)) {
            (Some(a), Some(b)) => spec_table_insert(t, e)[a] == t[b],
            (None, None) => true,
            _ => false,
        },
{
    let t2 = spec_table_insert(t, e);
    lemma_lookup_some(t, e.0);
    lemma_lookup_some(t, other);
    lemma_lookup_some(t2, e.0);
    lemma_lookup_some(t2, other);
    match spec_lookup(t, e.0) {
        Some(k) => {
            assert(t2 == t.update(k, e));
            assert forall|i: int, j: int| 0 <= i < j < t2.len() implies t2[i].0 != t2[j].0 by {
                if i == k {
                    assert(t[j].0 != t[k].0);
                } else if j == k {
                    assert(t[i].0 != t[k].0);
                }
            }
            lemma_lookup_found(t2, e.0, k);
        },
        None => {
            assert(t2 == t.push(e));
            assert forall|i: int, j: int| 0 <= i < j < t2.len() implies t2[i].0 != t2[j].0 by {
                if j == t.len() {
                    assert(t2[i] == t[i]);
                }
            }
            lemma_lookup_found(t2, e.0, t.len() as int);
        },
    }
    if other != e.0 {
        match spec_lookup(t, other) {
            Some(b) => {
                assert(t2[b] == t[b]);
                assert forall|k: int| 0 <= k < b implies t2[k].0 != other by {
                    assert(t2[k].0 == t[k].0 || t2[k] == e);
                }
                lemma_lookup_found(t2, other, b);
            },
            None => {
                assert forall|k: int| 0 <= k < t2.len() implies t2[k].0 != other by {
                    if k < t.len() {
                        assert(t2[k].0 == t[k].0 || t2[k] == e);
                    }
                }
                lemma_lookup_none(t2, other);
            },
        }
    }
}

/// The section table never holds two entries of the same name.
pub proof fn lemma_section_table_unique(
    info: ElfHeaderInfo,
    sections: Seq<u8>,
    strings: Seq<u8>,
    base: usize,
    n: int,
)
    ensures
        spec_names_unique(spec_section_table(info, sections, strings, base, n)),
    decreases n,
{
    if n > 0 {
        lemma_section_table_unique(info, sections, strings, base, n - 1);
        let t = spec_section_table(info, sections, strings, base, n - 1);
        match spec_section_at(info, sections, strings, base, n - 1) {
            Some(e) => {
                lemma_table_insert(t, e, e.0);
            },
            None => {},
        }
    }
}

} // verus!

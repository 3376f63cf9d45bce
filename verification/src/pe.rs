//! The headers of a 64-bit PE image, as the Windows module logic reads
//! them from the image's first bytes: the DOS header points at the NT
//! headers, which give the image size and the number of sections; the
//! section table follows.  Also the rights asked of and granted by Windows
//! page protections.  Finding the image and querying memory are left to the
//! caller; every offset here is checked against the bytes the caller gives.
use vstd::prelude::*;
use vstd::string::StringSliceAdditionalSpecFns;
use crate::bytes::read_le;
use crate::bytes::spec_le_value;
use crate::elf::bytes_equal;
use crate::elf::is_utf8;
use crate::process::Segment;
use crate::process::RegionStep;
use crate::protection::Protection;

verus! {

/// The value of `width` bytes of `b` at `off`: a PE image stores its
/// fields little-endian, whatever the machine.
pub open spec fn spec_field_at(b: Seq<u8>, off: int, width: int) -> int {
    spec_le_value(b.subrange(off, off + width))
}

/// The offset of the NT headers named by the DOS header, when both
/// signatures are present and the headers lie in `image`.
pub open spec fn spec_nt_headers(image: Seq<u8>) -> Option<int> {
    if image.len() < 64 || spec_field_at(image, 0, 2) != 0x5A4D {
        None
    } else {
        let lfanew = spec_field_at(image, 0x3C, 4);
        if lfanew >= 0x8000_0000 || lfanew + 4 > image.len() || spec_field_at(image, lfanew, 4) != 0x4550 {
            None
        } else {
            Some(lfanew)
        }
    }
}

fn read_u32(b: &[u8], at: usize) -> (r: u32)
    requires
        at + 4 <= b@.len(),
    ensures
        r as int == spec_field_at(b@, at as int, 4),
{
    let v = read_le(b, at, 4);
    proof {
        crate::bytes::lemma_le_value_bound(b@.subrange(at as int, at + 4));
        reveal_with_fuel(crate::bytes::pow256, 5);
    }
    v as u32
}

fn read_u16(b: &[u8], at: usize) -> (r: u16)
    requires
        at + 2 <= b@.len(),
    ensures
        r as int == spec_field_at(b@, at as int, 2),
{
    let v = read_le(b, at, 2);
    proof {
        crate::bytes::lemma_le_value_bound(b@.subrange(at as int, at + 2));
        reveal_with_fuel(crate::bytes::pow256, 3);
    }
    v as u16
}

/// Finds the NT headers: the DOS signature `MZ`, the offset at 0x3C (a
/// signed value, so one with the top bit set lies nowhere), and the NT
/// signature `PE\0\0` there.
pub fn nt_headers(image: &[u8]) -> (r: Option<usize>)
    ensures
        spec_opt(r) == spec_nt_headers(image@),
{
    let n = image.len();
    if n < 64 || read_u16(image, 0) != 0x5A4D {
        return None;
    }
    let lfanew = read_u32(image, 0x3C);
    if lfanew >= 0x8000_0000 {
        return None;
    }
    let nt = lfanew as usize;
    if nt > n || n - nt < 4 || read_u32(image, nt) != 0x4550 {
        return None;
    }
    Some(nt)
}

/// An offset as a mathematical integer.
pub open spec fn spec_opt(o: Option<usize>) -> Option<int> {
    match o {
        Some(x) => Some(x as int),
        None => None,
    }
}

/// The size of the image in memory, from the optional header.
pub open spec fn spec_image_size(image: Seq<u8>) -> Option<int> {
    match spec_nt_headers(image) {
        Some(nt) => if nt + 84 <= image.len() {
            Some(spec_field_at(image, nt + 80, 4))
        } else {
            None
        },
        None => None,
    }
}

/// The size of the image in memory.
pub fn image_size(image: &[u8]) -> (r: Option<usize>)
    ensures
        spec_opt(r) == spec_image_size(image@),
{
    let n = image.len();
    match nt_headers(image) {
        Some(nt) => {
            if n - nt < 84 {
                return None;
            }
            Some(read_u32(image, nt + 80) as usize)
        },
        None => None,
    }
}

/// A section header: name, address relative to the image, size of its
/// raw data, characteristics.
pub struct PeSection {
    pub name: Vec<u8>,
    pub virtual_address: u32,
    pub raw_size: u32,
    pub characteristics: u32,
}

impl View for PeSection {
    type V = (Seq<u8>, u32, u32, u32);

    open spec fn view(&self) -> (Seq<u8>, u32, u32, u32) {
        (self.name@, self.virtual_address, self.raw_size, self.characteristics)
    }
}

/// The offset of the section table: four bytes past the end of the NT
/// headers structure (264 bytes) from the NT headers.
pub open spec fn spec_section_table_offset(nt: int) -> int {
    nt + 4 + 264
}

/// A section name: the eight bytes if they are UTF-8 (else nothing),
/// without trailing zeros.
pub open spec fn spec_trim_nul(b: Seq<u8>) -> Seq<u8>
    decreases b.len(),
{
    if b.len() > 0 && b.last() == 0 {
        spec_trim_nul(b.drop_last())
    } else {
        b
    }
}

pub open spec fn spec_section_name(raw: Seq<u8>) -> Seq<u8> {
    if vstd::utf8::valid_utf8(raw) {
        spec_trim_nul(raw)
    } else {
        seq![]
    }
}

/// The section header at `off`.
pub open spec fn spec_pe_section_at(image: Seq<u8>, off: int) -> (Seq<u8>, u32, u32, u32) {
    (
        spec_section_name(image.subrange(off, off + 8)),
        spec_field_at(image, off + 12, 4) as u32,
        spec_field_at(image, off + 16, 4) as u32,
        spec_field_at(image, off + 36, 4) as u32,
    )
}

/// How many of the announced section headers lie in `image`, from the
/// first.
pub open spec fn spec_sections_present(image: Seq<u8>, table: int, count: int) -> int {
    let avail = if table <= image.len() { (image.len() - table) / 40 } else { 0 };
    if count <= avail {
        count
    } else {
        avail
    }
}

/// The section headers of the image that lie in `image`.
pub open spec fn spec_pe_sections(image: Seq<u8>) -> Seq<(Seq<u8>, u32, u32, u32)> {
    match spec_nt_headers(image) {
        Some(nt) => if nt + 8 <= image.len() {
            let table = spec_section_table_offset(nt);
            let count = spec_sections_present(image, table, spec_field_at(image, nt + 6, 2));
            Seq::new(count as nat, |i: int| spec_pe_section_at(image, table + i * 40))
        } else {
            seq![]
        },
        None => seq![],
    }
}

fn section_name(raw: &[u8]) -> (r: Vec<u8>)
    ensures
        r@ == spec_section_name(raw@),
{
    if !is_utf8(raw) {
        return Vec::new();
    }
    let mut end = raw.len();
    assert(raw@.take(end as int) =~= raw@);
    while end > 0 && raw[end - 1] == 0
        invariant
            end <= raw@.len(),
            spec_trim_nul(raw@) == spec_trim_nul(raw@.take(end as int)),
        decreases end,
    {
        assert(raw@.take(end as int).drop_last() =~= raw@.take(end - 1));
        end = end - 1;
    }
    let name = vstd::slice::slice_subrange(raw, 0, end);
    assert(name@ =~= raw@.take(end as int));
    vstd::slice::slice_to_vec(name)
}


/// Reads the section headers of the image that lie in `image`.
pub fn section_headers(image: &[u8]) -> (r: Vec<PeSection>)
    ensures
        r@.map_values(|s: PeSection| s@) == spec_pe_sections(image@),
{
    let n = image.len();
    let mut out: Vec<PeSection> = Vec::new();
    let nt = match nt_headers(image) {
        Some(nt) => nt,
        None => {
            assert(out@.map_values(|s: PeSection| s@) =~= Seq::<(Seq<u8>, u32, u32, u32)>::empty());
            return out;
        },
    };
    if n - nt < 8 {
        assert(out@.map_values(|s: PeSection| s@) =~= Seq::<(Seq<u8>, u32, u32, u32)>::empty());
        return out;
    }
    let announced = read_u16(image, nt + 6) as usize;
    if nt > usize::MAX - 268 {
        assert(out@.map_values(|s: PeSection| s@) =~= Seq::<(Seq<u8>, u32, u32, u32)>::empty());
        return out;
    }
    let table = nt + 268;
    let avail = if table <= n {
        (n - table) / 40
    } else {
        0
    };
    let count = if announced <= avail {
        announced
    } else {
        avail
    };
    let ghost all = spec_pe_sections(image@);
    assert(count == spec_sections_present(image@, table as int, spec_field_at(image@, nt + 6, 2)));
    let mut i: usize = 0;
    while i < count
        invariant
            n == image@.len(),
            count <= avail,
            table <= n || avail == 0,
            avail == (if table <= n { (n - table) / 40 } else { 0 }),
            0 <= i <= count,
            all == Seq::new(count as nat, |i: int| spec_pe_section_at(image@, table + i * 40)),
            out@.map_values(|s: PeSection| s@) =~= all.take(i as int),
        decreases count - i,
    {
        assert(table + i * 40 + 40 <= n) by (nonlinear_arith)
            requires
                i < count,
                count <= avail,
                avail == (if table <= n { (n - table) / 40 } else { 0 }),
        ;
        let off = table + i * 40;
        let raw = vstd::slice::slice_subrange(image, off, off + 8);
        let sec = PeSection {
            name: section_name(raw),
            virtual_address: read_u32(image, off + 12),
            raw_size: read_u32(image, off + 16),
            characteristics: read_u32(image, off + 36),
        };
        let ghost before = out@;
        out.push(sec);
        assert(all[i as int] == sec@);
        assert(out@.map_values(|s: PeSection| s@) =~= before.map_values(|s: PeSection| s@).push(sec@));
        assert(all.take(i + 1) =~= all.take(i as int).push(all[i as int]));
        i = i + 1;
    }
    assert(all.take(count as int) =~= all);
    out
}

/// The first section named `name`, from index `k` on.
pub open spec fn spec_find_pe_section(sections: Seq<(Seq<u8>, u32, u32, u32)>, name: Seq<u8>, k: int) -> Option<int>
    decreases sections.len() - k,
{
    if k < 0 || k >= sections.len() {
        None
    } else if sections[k].0 == name {
        Some(k)
    } else {
        spec_find_pe_section(sections, name, k + 1)
    }
}

/// Where the section `name` of the image loaded at `base` lies: the first
/// section of that name, its address and the size of its raw data.
pub fn section_data(base: usize, sections: &[PeSection], name: &str) -> (r: Option<(usize, usize)>)
    requires
        forall|k: int| 0 <= k < sections@.len() ==> base + (#[trigger] sections@[k]).virtual_address <= usize::MAX,
    ensures
        r == match spec_find_pe_section(sections@.map_values(|s: PeSection| s@), name.spec_bytes(), 0) {
            Some(k) => Some(((base + sections@[k].virtual_address) as usize, sections@[k].raw_size as usize)),
            None => None,
        },
{
    let ghost views = sections@.map_values(|s: PeSection| s@);
    let nb = name.as_bytes();
    let n = sections.len();
    let mut k: usize = 0;
    while k < n
        invariant
            n == sections@.len(),
            views == sections@.map_values(|s: PeSection| s@),
            nb@ == name.spec_bytes(),
            forall|q: int| 0 <= q < sections@.len() ==> base + (#[trigger] sections@[q]).virtual_address <= usize::MAX,
            0 <= k <= n,
            spec_find_pe_section(views, nb@, 0) == spec_find_pe_section(views, nb@, k as int),
        decreases n - k,
    {
        let s = &sections[k];
        assert(views[k as int] == s@);
        if bytes_equal(s.name.as_slice(), nb) {
            assert(base + sections@[k as int].virtual_address <= usize::MAX);
            return Some((base + s.virtual_address as usize, s.raw_size as usize));
        }
        k = k + 1;
    }
    None
}

/// The rights of a section from its characteristics: read (0x40000000),
/// write (0x80000000), execute (0x20000000).
pub open spec fn spec_section_rights(c: u32) -> Protection {
    Protection::spec_from_bits(
        ((if c & 0x4000_0000 != 0 { 1int } else { 0int }) + (if c & 0x8000_0000 != 0 { 2int } else { 0int }) + (if c
            & 0x2000_0000 != 0 {
            4int
        } else {
            0int
        })) as u8,
    )
}

/// A section holds a right exactly when its characteristics have the flag
/// for it: read 0x40000000, write 0x80000000, execute 0x20000000; it holds
/// no other right.
pub proof fn lemma_section_rights_bits(c: u32)
    ensures
        spec_section_rights(c).spec_contains(Protection::spec_read()) == (c & 0x4000_0000 != 0),
        spec_section_rights(c).spec_contains(Protection::spec_write()) == (c & 0x8000_0000 != 0),
        spec_section_rights(c).spec_contains(Protection::spec_execute()) == (c & 0x2000_0000 != 0),
        spec_section_rights(c).spec_bits() < 8,
{
    crate::protection::lemma_rights_of(c & 0x4000_0000 != 0, c & 0x8000_0000 != 0, c & 0x2000_0000 != 0);
}

/// The rights of a section from its characteristics.
pub fn section_protection(characteristics: u32) -> (r: Protection)
    ensures
        r == spec_section_rights(characteristics),
        r.spec_contains(Protection::spec_read()) == (characteristics & 0x4000_0000 != 0),
        r.spec_contains(Protection::spec_write()) == (characteristics & 0x8000_0000 != 0),
        r.spec_contains(Protection::spec_execute()) == (characteristics & 0x2000_0000 != 0),
        r.spec_bits() < 8,
{
    proof {
        lemma_section_rights_bits(characteristics);
    }
    let mut bits: u8 = 0;
    if characteristics & 0x4000_0000 != 0 {
        bits = bits + 1;
    }
    if characteristics & 0x8000_0000 != 0 {
        bits = bits + 2;
    }
    if characteristics & 0x2000_0000 != 0 {
        bits = bits + 4;
    }
    let r = Protection::from_bits(bits);
    proof {
        let expected = ((if characteristics & 0x4000_0000 != 0 { 1int } else { 0int }) + (if characteristics
            & 0x8000_0000 != 0 {
            2int
        } else {
            0int
        }) + (if characteristics & 0x2000_0000 != 0 { 4int } else { 0int })) as u8;
        assert(bits == expected);
        Protection::lemma_from_bits(expected);
        Protection::lemma_bits_eq(r, spec_section_rights(characteristics));
    }
    r
}

/// The memory of each section of the image loaded at `base`, with its
/// rights, in table order: what a walk over the image's segments visits.
pub fn image_segments(base: usize, sections: &[PeSection]) -> (r: Vec<Segment>)
    requires
        forall|k: int| 0 <= k < sections@.len() ==> base + (#[trigger] sections@[k]).virtual_address <= usize::MAX,
    ensures
        r@.len() == sections@.len(),
        forall|k: int|
            0 <= k < sections@.len() ==> (#[trigger] r@[k]) == (Segment {
                start: (base + sections@[k].virtual_address) as usize,
                size: sections@[k].raw_size as usize,
                protection: spec_section_rights(sections@[k].characteristics),
            }),
        forall|k: int|
            0 <= k < sections@.len() ==> {
                let c = sections@[k].characteristics;
                let p = (#[trigger] r@[k]).protection;
                &&& p.spec_contains(Protection::spec_read()) == (c & 0x4000_0000 != 0)
                &&& p.spec_contains(Protection::spec_write()) == (c & 0x8000_0000 != 0)
                &&& p.spec_contains(Protection::spec_execute()) == (c & 0x2000_0000 != 0)
                &&& p.spec_bits() < 8
            },
{
    let n = sections.len();
    let mut out: Vec<Segment> = Vec::new();
    let mut k: usize = 0;
    while k < n
        invariant
            n == sections@.len(),
            forall|q: int| 0 <= q < sections@.len() ==> base + (#[trigger] sections@[q]).virtual_address <= usize::MAX,
            0 <= k <= n,
            out@.len() == k,
            forall|q: int|
                0 <= q < k ==> (#[trigger] out@[q]) == (Segment {
                    start: (base + sections@[q].virtual_address) as usize,
                    size: sections@[q].raw_size as usize,
                    protection: spec_section_rights(sections@[q].characteristics),
                }),
        decreases n - k,
    {
        let s = &sections[k];
        assert(base + sections@[k as int].virtual_address <= usize::MAX);
        out.push(
            Segment {
                start: base + s.virtual_address as usize,
                size: s.raw_size as usize,
                protection: section_protection(s.characteristics),
            },
        );
        k = k + 1;
    }
    proof {
        assert forall|q: int| 0 <= q < sections@.len() implies {
            let c = sections@[q].characteristics;
            let p = (#[trigger] out@[q]).protection;
            &&& p.spec_contains(Protection::spec_read()) == (c & 0x4000_0000 != 0)
            &&& p.spec_contains(Protection::spec_write()) == (c & 0x8000_0000 != 0)
            &&& p.spec_contains(Protection::spec_execute()) == (c & 0x2000_0000 != 0)
            &&& p.spec_bits() < 8
        } by {
            lemma_section_rights_bits(sections@[q].characteristics);
        }
    }
    out
}

/// The Windows page protection that grants `flags`: execute with write,
/// execute with read, execute alone, read and write, read only; none (0)
/// for no right.
pub open spec fn spec_page_protection(flags: Protection) -> u32 {
    if flags.spec_contains(Protection::spec_execute()) {
        if flags.spec_contains(Protection::spec_write()) {
            0x40
        } else if flags.spec_contains(Protection::spec_read()) {
            0x20
        } else {
            0x10
        }
    } else if flags.spec_contains(Protection::spec_write()) {
        0x04
    } else if flags.spec_contains(Protection::spec_read()) {
        0x02
    } else {
        0
    }
}

/// The Windows page protection to ask for to grant `flags`.
pub fn page_protection(flags: Protection) -> (r: u32)
    ensures
        r == spec_page_protection(flags),
{
    if flags.contains(Protection::execute()) {
        if flags.contains(Protection::write()) {
            0x40
        } else if flags.contains(Protection::read()) {
            0x20
        } else {
            0x10
        }
    } else if flags.contains(Protection::write()) {
        0x04
    } else if flags.contains(Protection::read()) {
        0x02
    } else {
        0
    }
}

/// Whether a region with the Windows page protection `protect` has one of
/// the rights asked for in `flags` (read 1, write 2, execute 4): a right
/// asked for is had when the protection is one of those that grant it:
/// read by read-only (0x02), read-write (0x04), execute-read (0x20) and
/// execute-read-write (0x40); write by 0x04 and 0x40; execute by execute
/// (0x10), 0x20 and 0x40.
pub open spec fn spec_region_grants(protect: u32, flags: u32) -> bool {
    ||| (flags & 1 != 0 && protect & 0x66u32 != 0)
    ||| (flags & 2 != 0 && protect & 0x44u32 != 0)
    ||| (flags & 4 != 0 && protect & 0x70u32 != 0)
}

/// Whether the region's protection has one of the rights asked for.
pub fn region_grants(protect: u32, flags: u32) -> (r: bool)
    ensures
        r == spec_region_grants(protect, flags),
{
    let mut has_flags = false;
    if flags & 1 != 0 {
        has_flags = has_flags || protect & 0x66 != 0;
    }
    if flags & 2 != 0 {
        has_flags = has_flags || protect & 0x44 != 0;
    }
    if flags & 4 != 0 {
        has_flags = has_flags || protect & 0x70 != 0;
    }
    has_flags
}

/// A region whose protection is the one asked for to grant `flags` passes
/// the check for each right of `flags` (read 1, write 2, execute 4); no
/// right asks for no protection.
pub proof fn lemma_page_protection_grants(flags: Protection)
    ensures
        flags.spec_contains(Protection::spec_read()) ==> spec_region_grants(spec_page_protection(flags), 1),
        flags.spec_contains(Protection::spec_write()) ==> spec_region_grants(spec_page_protection(flags), 2),
        flags.spec_contains(Protection::spec_execute()) ==> spec_region_grants(spec_page_protection(flags), 4),
        !flags.spec_contains(Protection::spec_read()) && !flags.spec_contains(Protection::spec_write())
            && !flags.spec_contains(Protection::spec_execute()) ==> spec_page_protection(flags) == 0,
{
    assert(0x40u32 & 0x66u32 != 0 && 0x40u32 & 0x44u32 != 0 && 0x40u32 & 0x70u32 != 0 && 0x20u32 & 0x66u32 != 0
        && 0x20u32 & 0x70u32 != 0 && 0x10u32 & 0x70u32 != 0 && 0x04u32 & 0x66u32 != 0 && 0x04u32 & 0x44u32 != 0
        && 0x02u32 & 0x66u32 != 0 && 1u32 & 1u32 != 0 && 2u32 & 2u32 != 0 && 4u32 & 4u32 != 0 && 1u32 & 2u32 == 0
        && 1u32 & 4u32 == 0 && 2u32 & 1u32 == 0 && 2u32 & 4u32 == 0 && 4u32 & 1u32 == 0 && 4u32 & 2u32 == 0)
        by (bit_vector);
}

/// One step of checking the range from `current` to `end` for `flags`,
/// given the region the query at `current` reports (its base, size and
/// protection), or `None` when the query failed: the region must start at
/// `current` and grant the rights; the check ends once `end` is reached.
pub fn region_step(current: usize, end: usize, flags: u32, region: Option<(usize, usize, u32)>) -> (r: RegionStep)
    requires
        current < end,
        region matches Some((b, s, p)) ==> b + s <= usize::MAX,
    ensures
        r == match region {
            None => RegionStep::Refused,
            Some((b, s, p)) => if current != b || !spec_region_grants(p, flags) {
                RegionStep::Refused
            } else if b + s >= end {
                RegionStep::Granted
            } else {
                RegionStep::Next((b + s) as usize)
            },
        },
{
    match region {
        None => RegionStep::Refused,
        Some((region_start, region_size, protect)) => {
            if current != region_start {
                return RegionStep::Refused;
            }
            if !region_grants(protect, flags) {
                return RegionStep::Refused;
            }
            let next = region_start + region_size;
            if next >= end {
                RegionStep::Granted
            } else {
                RegionStep::Next(next)
            }
        },
    }
}

} // verus!

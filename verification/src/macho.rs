//! The load commands of a 64-bit Mach-O image, as the macOS module logic
//! walks them: segment commands with their sections, read from the bytes
//! that follow the image header.  Where the loader keeps an image and how
//! far it slid it are for the caller to find out; these functions decide
//! what the load commands say.
use vstd::prelude::*;
use vstd::string::StringSliceAdditionalSpecFns;
use crate::bytes::read_uint;
use crate::bytes::spec_value_in;
use crate::bytes::ByteOrder;
use crate::elf::is_utf8;
use crate::elf::lemma_nul_pos_is;
use crate::elf::spec_nul_pos;
use crate::elf::bytes_equal;
use crate::elf::SectionEntry;
use crate::process::Segment;
use crate::process::RegionStep;
use crate::protection::Protection;

verus! {

/// The value of `width` bytes of `b` at `off`, read in `order`.
pub open spec fn spec_at(order: ByteOrder, b: Seq<u8>, off: int, width: int) -> int {
    spec_value_in(order, b.subrange(off, off + width))
}

/// A fixed-size name field: the bytes before the first zero, or nothing
/// when those are not UTF-8.
pub open spec fn spec_name_field(b: Seq<u8>, off: int, width: int) -> Seq<u8> {
    let f = b.subrange(off, off + width);
    let nm = f.take(spec_nul_pos(f));
    if vstd::utf8::valid_utf8(nm) {
        nm
    } else {
        seq![]
    }
}

/// The command number of a 64-bit segment command.
pub open spec fn spec_lc_segment_64() -> int {
    0x19
}

/// Size of a load command header, a 64-bit segment command, and a 64-bit
/// section record.
pub open spec fn spec_load_command_size() -> int {
    8
}

pub open spec fn spec_segment_command_size() -> int {
    72
}

pub open spec fn spec_section_size() -> int {
    80
}

/// A section record: section name, segment name, address, size, flags.
pub struct MachSection {
    pub sectname: Vec<u8>,
    pub segname: Vec<u8>,
    pub addr: u64,
    pub size: u64,
    pub flags: u32,
}

impl View for MachSection {
    type V = (Seq<u8>, Seq<u8>, u64, u64, u32);

    open spec fn view(&self) -> (Seq<u8>, Seq<u8>, u64, u64, u32) {
        (self.sectname@, self.segname@, self.addr, self.size, self.flags)
    }
}

/// A segment command: name, address, size, initial rights, and its
/// sections (none when they do not fit in the command).
pub struct MachSegment {
    pub segname: Vec<u8>,
    pub vmaddr: u64,
    pub vmsize: u64,
    pub initprot: u32,
    pub sections: Vec<MachSection>,
}

impl View for MachSegment {
    type V = (Seq<u8>, u64, u64, u32, Seq<(Seq<u8>, Seq<u8>, u64, u64, u32)>);

    open spec fn view(&self) -> (Seq<u8>, u64, u64, u32, Seq<(Seq<u8>, Seq<u8>, u64, u64, u32)>) {
        (self.segname@, self.vmaddr, self.vmsize, self.initprot, self.sections@.map_values(|s: MachSection| s@))
    }
}

/// The section record at `off`.
pub open spec fn spec_section_at(order: ByteOrder, cmds: Seq<u8>, off: int) -> (Seq<u8>, Seq<u8>, u64, u64, u32) {
    (
        spec_name_field(cmds, off, 16),
        spec_name_field(cmds, off + 16, 16),
        spec_at(order, cmds, off + 32, 8) as u64,
        spec_at(order, cmds, off + 40, 8) as u64,
        spec_at(order, cmds, off + 64, 4) as u32,
    )
}

/// The segment command at `i`, whose command is `cmdsize` bytes long.
pub open spec fn spec_segment_at(order: ByteOrder, cmds: Seq<u8>, i: int, cmdsize: int) -> (
    Seq<u8>,
    u64,
    u64,
    u32,
    Seq<(Seq<u8>, Seq<u8>, u64, u64, u32)>,
) {
    let nsects = spec_at(order, cmds, i + 64, 4);
    let base = i + spec_segment_command_size();
    (
        spec_name_field(cmds, i + 8, 16),
        spec_at(order, cmds, i + 24, 8) as u64,
        spec_at(order, cmds, i + 32, 8) as u64,
        spec_at(order, cmds, i + 60, 4) as u32,
        if base + nsects * spec_section_size() <= i + cmdsize {
            Seq::new(nsects as nat, |j: int| spec_section_at(order, cmds, base + j * spec_section_size()))
        } else {
            seq![]
        },
    )
}

/// The segment commands met walking the load commands from offset `i`:
/// each command starts with its number and its size; the walk stops at a
/// command of size 0 or one that passes the end.
pub open spec fn spec_load_segments(order: ByteOrder, cmds: Seq<u8>, i: int) -> Seq<
    (Seq<u8>, u64, u64, u32, Seq<(Seq<u8>, Seq<u8>, u64, u64, u32)>),
>
    decreases cmds.len() - i,
{
    if i < 0 || i + spec_load_command_size() > cmds.len() {
        seq![]
    } else {
        let cmd = spec_at(order, cmds, i, 4);
        let cmdsize = spec_at(order, cmds, i + 4, 4);
        if cmdsize <= 0 || i + cmdsize > cmds.len() {
            seq![]
        } else {
            let rest = spec_load_segments(order, cmds, i + cmdsize);
            if cmd == spec_lc_segment_64() && i + spec_segment_command_size() <= cmds.len() {
                seq![spec_segment_at(order, cmds, i, cmdsize)] + rest
            } else {
                rest
            }
        }
    }
}

/// Reads the name field of `width` bytes at `off`.
fn read_name(cmds: &[u8], off: usize, width: usize) -> (r: Vec<u8>)
    requires
        off + width <= cmds@.len(),
    ensures
        r@ == spec_name_field(cmds@, off as int, width as int),
{
    let _n = cmds.len();
    let field = vstd::slice::slice_subrange(cmds, off, off + width);
    let mut end: usize = 0;
    while end < width && field[end] != 0
        invariant
            field@.len() == width,
            0 <= end <= width,
            forall|k: int| 0 <= k < end ==> field@[k] != 0,
        decreases width - end,
    {
        end = end + 1;
    }
    proof {
        lemma_nul_pos_is(field@, end as int);
    }
    let name = vstd::slice::slice_subrange(field, 0, end);
    assert(name@ =~= field@.take(end as int));
    if is_utf8(name) {
        vstd::slice::slice_to_vec(name)
    } else {
        Vec::new()
    }
}

/// Reads a `u32` stored in `order`.
fn read_u32(b: &[u8], at: usize, order: ByteOrder) -> (r: u32)
    requires
        at + 4 <= b@.len(),
    ensures
        r as int == spec_at(order, b@, at as int, 4),
{
    let v = read_uint(b, at, 4, order);
    proof {
        crate::bytes::lemma_value_bound(order, b@.subrange(at as int, at + 4));
        reveal_with_fuel(crate::bytes::pow256, 5);
    }
    v as u32
}

/// Reads the section record at `off`.
fn read_section(cmds: &[u8], off: usize, order: ByteOrder) -> (r: MachSection)
    requires
        off + 80 <= cmds@.len(),
    ensures
        r@ == spec_section_at(order, cmds@, off as int),
{
    let _n = cmds.len();
    MachSection {
        sectname: read_name(cmds, off, 16),
        segname: read_name(cmds, off + 16, 16),
        addr: read_uint(cmds, off + 32, 8, order),
        size: read_uint(cmds, off + 40, 8, order),
        flags: read_u32(cmds, off + 64, order),
    }
}


/// Reads the segment command at `i`, whose command is `cmdsize` bytes long.
fn read_segment(cmds: &[u8], i: usize, cmdsize: usize, order: ByteOrder) -> (r: MachSegment)
    requires
        i + 72 <= cmds@.len(),
        i + cmdsize <= cmds@.len(),
    ensures
        r@ == spec_segment_at(order, cmds@, i as int, cmdsize as int),
{
    let n = cmds.len();
    let nsects32 = read_u32(cmds, i + 64, order);
    let nsects = nsects32 as usize;
    let base = i + 72;
    let mut sections: Vec<MachSection> = Vec::new();
    let ghost all = Seq::new(nsects as nat, |j: int| spec_section_at(order, cmds@, base + j * 80));
    let fits = match nsects.checked_mul(80) {
        Some(total) => base <= i + cmdsize && total <= i + cmdsize - base,
        None => false,
    };
    if fits {
        let mut j: usize = 0;
        while j < nsects
            invariant
                n == cmds@.len(),
                base == i + 72,
                base + nsects * 80 <= i + cmdsize,
                i + cmdsize <= n,
                0 <= j <= nsects,
                all == Seq::new(nsects as nat, |j: int| spec_section_at(order, cmds@, base + j * 80)),
                sections@.map_values(|s: MachSection| s@) =~= all.take(j as int),
            decreases nsects - j,
        {
            assert(j * 80 + 80 <= nsects * 80) by (nonlinear_arith)
                requires
                    j < nsects,
            ;
            let sec = read_section(cmds, base + j * 80, order);
            let ghost old_sections = sections@;
            sections.push(sec);
            assert(all[j as int] == sec@);
            assert(sections@.map_values(|s: MachSection| s@) =~= old_sections.map_values(|s: MachSection| s@).push(sec@));
            assert(all.take(j + 1) =~= all.take(j as int).push(all[j as int]));
            j = j + 1;
        }
        assert(all.take(nsects as int) =~= all);
    } else {
        proof {
            if base + nsects * 80 <= i + cmdsize {
                assert(nsects * 80 <= usize::MAX);
            }
        }
    }
    MachSegment {
        segname: read_name(cmds, i + 8, 16),
        vmaddr: read_uint(cmds, i + 24, 8, order),
        vmsize: read_uint(cmds, i + 32, 8, order),
        initprot: read_u32(cmds, i + 60, order),
        sections,
    }
}

/// Walks the load commands (the bytes after the image header), whose
/// integers are stored in `order` (the machine's own, for the images the
/// loader keeps), and reads every 64-bit segment command with its sections.
pub fn parse_load_commands(cmds: &[u8], order: ByteOrder) -> (r: Vec<MachSegment>)
    ensures
        r@.map_values(|s: MachSegment| s@) == spec_load_segments(order, cmds@, 0),
{
    let n = cmds.len();
    let mut out: Vec<MachSegment> = Vec::new();
    let mut i: usize = 0;
    let mut done = false;
    while !done
        invariant
            n == cmds@.len(),
            i <= n,
            done ==> out@.map_values(|s: MachSegment| s@) == spec_load_segments(order, cmds@, 0),
            !done ==> out@.map_values(|s: MachSegment| s@) + spec_load_segments(order, cmds@, i as int) == spec_load_segments(
                order,
                cmds@,
                0,
            ),
        decreases (n - i) * 2 + (if done { 0int } else { 1int }),
    {
        let ghost before = out@.map_values(|s: MachSegment| s@);
        if n - i < 8 {
            assert(before + Seq::empty() =~= before);
            done = true;
        } else {
            let cmd = read_u32(cmds, i, order);
            let cmdsize = read_u32(cmds, i + 4, order) as usize;
            if cmdsize == 0 || cmdsize > n - i {
                assert(before + Seq::empty() =~= before);
                done = true;
            } else {
                let ghost rest = spec_load_segments(order, cmds@, i + cmdsize);
                if cmd == 0x19 && n - i >= 72 {
                    let seg = read_segment(cmds, i, cmdsize, order);
                    out.push(seg);
                    assert(out@.map_values(|s: MachSegment| s@) =~= before.push(seg@));
                    assert(before.push(seg@) + rest =~= before + (seq![seg@] + rest));
                } else {
                    assert(spec_load_segments(order, cmds@, i as int) == rest);
                }
                i = i + cmdsize;
            }
        }
    }
    out
}


/// The rights of a segment from its initial VM protection: read (1),
/// write (2), execute (4).
pub open spec fn spec_vm_protection(initprot: u32) -> Protection {
    Protection::spec_from_bits(
        ((if initprot & 1 != 0 { 1int } else { 0int }) + (if initprot & 2 != 0 { 2int } else { 0int }) + (if initprot
            & 4 != 0 {
            4int
        } else {
            0int
        })) as u8,
    )
}

/// A segment holds a right exactly when its initial VM protection has its
/// bit: read 1, write 2, execute 4; it holds no other right.
pub proof fn lemma_vm_protection_bits(initprot: u32)
    ensures
        spec_vm_protection(initprot).spec_contains(Protection::spec_read()) == (initprot & 1 != 0),
        spec_vm_protection(initprot).spec_contains(Protection::spec_write()) == (initprot & 2 != 0),
        spec_vm_protection(initprot).spec_contains(Protection::spec_execute()) == (initprot & 4 != 0),
        spec_vm_protection(initprot).spec_bits() < 8,
{
    crate::protection::lemma_rights_of(initprot & 1 != 0, initprot & 2 != 0, initprot & 4 != 0);
}

/// The rights of a segment from its initial VM protection.
pub fn segment_protection(initprot: u32) -> (r: Protection)
    ensures
        r == spec_vm_protection(initprot),
        r.spec_contains(Protection::spec_read()) == (initprot & 1 != 0),
        r.spec_contains(Protection::spec_write()) == (initprot & 2 != 0),
        r.spec_contains(Protection::spec_execute()) == (initprot & 4 != 0),
        r.spec_bits() < 8,
{
    proof {
        lemma_vm_protection_bits(initprot);
    }
    let mut bits: u8 = 0;
    if initprot & 1 != 0 {
        bits = bits + 1;
    }
    if initprot & 2 != 0 {
        bits = bits + 2;
    }
    if initprot & 4 != 0 {
        bits = bits + 4;
    }
    let r = Protection::from_bits(bits);
    proof {
        let expected = ((if initprot & 1 != 0 { 1int } else { 0int }) + (if initprot & 2 != 0 { 2int } else { 0int })
            + (if initprot & 4 != 0 { 4int } else { 0int })) as u8;
        assert(bits == expected);
        Protection::lemma_from_bits(expected);
        Protection::lemma_bits_eq(r, spec_vm_protection(initprot));
    }
    r
}

/// The name of the segment that maps the null page.
pub open spec fn spec_pagezero() -> Seq<u8> {
    seq![95u8, 95u8, 80u8, 65u8, 71u8, 69u8, 90u8, 69u8, 82u8, 79u8]
}

fn is_pagezero(name: &[u8]) -> (r: bool)
    ensures
        r == (name@ == spec_pagezero()),
{
    let pagezero: [u8; 10] = [95u8, 95u8, 80u8, 65u8, 71u8, 69u8, 90u8, 69u8, 82u8, 79u8];
    let p = pagezero.as_slice();
    assert(p@ =~= spec_pagezero());
    bytes_equal(name, p)
}

/// The segment counts for the image's extent: it has memory and is not
/// the null page.
pub open spec fn spec_counts_for_extent(s: (Seq<u8>, u64, u64, u32, Seq<(Seq<u8>, Seq<u8>, u64, u64, u32)>)) -> bool {
    s.2 > 0 && s.0 != spec_pagezero()
}

/// The largest end, `slide` included, of the segments that count for the
/// image's extent (0 when none does).
pub open spec fn spec_max_end(segs: Seq<(Seq<u8>, u64, u64, u32, Seq<(Seq<u8>, Seq<u8>, u64, u64, u32)>)>, slide: int) -> int
    decreases segs.len(),
{
    if segs.len() == 0 {
        0
    } else {
        let prev = spec_max_end(segs.drop_last(), slide);
        let s = segs.last();
        if spec_counts_for_extent(s) && slide + s.1 + s.2 > prev {
            slide + s.1 + s.2
        } else {
            prev
        }
    }
}

/// The ends of the segments stay in range.
pub open spec fn spec_segments_in_range(segs: Seq<(Seq<u8>, u64, u64, u32, Seq<(Seq<u8>, Seq<u8>, u64, u64, u32)>)>, slide: int) -> bool {
    forall|k: int| 0 <= k < segs.len() ==> slide + (#[trigger] segs[k]).1 + segs[k].2 <= usize::MAX
}

/// The image in memory of the module whose header lies at `addr` and
/// which slid by `slide`: from its header to the largest end of a segment
/// that counts, or nothing when that end does not pass the header.
pub fn module_data(addr: usize, slide: usize, segs: &[MachSegment]) -> (r: (usize, usize))
    requires
        spec_segments_in_range(segs@.map_values(|s: MachSegment| s@), slide as int),
    ensures
        ({
            let end = spec_max_end(segs@.map_values(|s: MachSegment| s@), slide as int);
            r == if end <= addr {
                (addr, 0usize)
            } else {
                (addr, (end - addr) as usize)
            }
        }),
{
    let ghost views = segs@.map_values(|s: MachSegment| s@);
    let n = segs.len();
    let mut max_end: usize = 0;
    let mut k: usize = 0;
    while k < n
        invariant
            n == segs@.len(),
            views == segs@.map_values(|s: MachSegment| s@),
            spec_segments_in_range(views, slide as int),
            0 <= k <= n,
            max_end as int == spec_max_end(views.take(k as int), slide as int),
        decreases n - k,
    {
        let seg = &segs[k];
        assert(views[k as int] == seg@);
        assert(views.take(k + 1).drop_last() =~= views.take(k as int));
        assert(views.take(k + 1).last() == seg@);
        if seg.vmsize > 0 && !is_pagezero(seg.segname.as_slice()) {
            let end = slide + seg.vmaddr as usize + seg.vmsize as usize;
            if end > max_end {
                max_end = end;
            }
        }
        k = k + 1;
    }
    assert(views.take(n as int) =~= views);
    if max_end <= addr {
        (addr, 0)
    } else {
        (addr, max_end - addr)
    }
}


/// A section is asked for by `name`: its own name, or its segment's name,
/// a comma, and its own name.
pub open spec fn spec_section_matches(sec: (Seq<u8>, Seq<u8>, u64, u64, u32), name: Seq<u8>) -> bool {
    name == sec.0 || name == sec.1 + seq![44u8] + sec.0
}

/// Whether the section is the one `name` asks for.
pub fn section_matches(sec: &MachSection, name: &[u8]) -> (r: bool)
    ensures
        r == spec_section_matches(sec@, name@),
{
    if bytes_equal(sec.sectname.as_slice(), name) {
        return true;
    }
    let g = sec.segname.len();
    let t = sec.sectname.len();
    let n = name.len();
    if g >= n || n - g - 1 != t {
        proof {
            assert((sec.segname@ + seq![44u8] + sec.sectname@).len() == g + 1 + t);
        }
        return false;
    }
    let head = vstd::slice::slice_subrange(name, 0, g);
    let tail = vstd::slice::slice_subrange(name, g + 1, n);
    let r = name[g] == 44 && bytes_equal(head, sec.segname.as_slice()) && bytes_equal(tail, sec.sectname.as_slice());
    proof {
        let q = sec.segname@ + seq![44u8] + sec.sectname@;
        if r {
            assert(name@ =~= q);
        }
        if name@ == q {
            assert(head@ =~= name@.subrange(0, g as int));
            assert(head@ =~= sec.segname@);
            assert(tail@ =~= sec.sectname@);
            assert(name@[g as int] == q[g as int]);
        }
    }
    r
}

/// The first section, in load order from section `j` of segment `k` on,
/// that `name` asks for and that has bytes: its segment and its place.
pub open spec fn spec_find_section(
    segs: Seq<(Seq<u8>, u64, u64, u32, Seq<(Seq<u8>, Seq<u8>, u64, u64, u32)>)>,
    name: Seq<u8>,
    k: int,
    j: int,
) -> Option<(int, int)>
    decreases segs.len() - k, (if 0 <= k < segs.len() { segs[k].4.len() - j } else { 0 }),
{
    if k < 0 || k >= segs.len() {
        None
    } else if j < 0 || j >= segs[k].4.len() {
        spec_find_section(segs, name, k + 1, 0)
    } else if spec_section_matches(segs[k].4[j], name) && segs[k].4[j].3 > 0 {
        Some((k, j))
    } else {
        spec_find_section(segs, name, k, j + 1)
    }
}

/// The addresses of the sections, `slide` included, stay in range.
pub open spec fn spec_sections_in_range(segs: Seq<(Seq<u8>, u64, u64, u32, Seq<(Seq<u8>, Seq<u8>, u64, u64, u32)>)>, slide: int) -> bool {
    forall|k: int, j: int|
        0 <= k < segs.len() && 0 <= j < segs[k].4.len() ==> slide + (#[trigger] segs[k].4[j]).2 <= usize::MAX
            && segs[k].4[j].3 <= usize::MAX
}

/// Where the section that `name` asks for lies in memory, for an image
/// that slid by `slide`: the first one in load order with bytes.
pub fn section_data(slide: usize, segs: &[MachSegment], name: &[u8]) -> (r: Option<(usize, usize)>)
    requires
        spec_sections_in_range(segs@.map_values(|s: MachSegment| s@), slide as int),
    ensures
        ({
            let views = segs@.map_values(|s: MachSegment| s@);
            r == match spec_find_section(views, name@, 0, 0) {
                Some((k, j)) => Some(((slide + views[k].4[j].2) as usize, views[k].4[j].3 as usize)),
                None => None,
            }
        }),
{
    let ghost views = segs@.map_values(|s: MachSegment| s@);
    let n = segs.len();
    let mut k: usize = 0;
    while k < n
        invariant
            n == segs@.len(),
            views == segs@.map_values(|s: MachSegment| s@),
            spec_sections_in_range(views, slide as int),
            0 <= k <= n,
            spec_find_section(views, name@, 0, 0) == spec_find_section(views, name@, k as int, 0),
        decreases n - k,
    {
        let seg = &segs[k];
        assert(views[k as int] == seg@);
        let m = seg.sections.len();
        let mut j: usize = 0;
        while j < m
            invariant
                n == segs@.len(),
                views == segs@.map_values(|s: MachSegment| s@),
                spec_sections_in_range(views, slide as int),
                0 <= k < n,
                seg == &segs@[k as int],
                views[k as int] == seg@,
                m == seg.sections@.len(),
                0 <= j <= m,
                spec_find_section(views, name@, 0, 0) == spec_find_section(views, name@, k as int, j as int),
            decreases m - j,
        {
            let sec = &seg.sections[j];
            assert(views[k as int].4[j as int] == sec@);
            if section_matches(sec, name) && sec.size > 0 {
                assert(slide + views[k as int].4[j as int].2 <= usize::MAX);
                return Some((slide + sec.addr as usize, sec.size as usize));
            }
            j = j + 1;
        }
        k = k + 1;
    }
    None
}


/// The rights of a section: its segment's initial rights, and read (flag
/// 0x800), write (0x400) and execute (0x200) from its own flags.
pub open spec fn spec_section_rights(initprot: u32, flags: u32) -> Protection {
    Protection::spec_from_bits(
        ((if initprot & 1 != 0 || flags & 0x800 != 0 { 1int } else { 0int }) + (if initprot & 2 != 0 || flags
            & 0x400 != 0 {
            2int
        } else {
            0int
        }) + (if initprot & 4 != 0 || flags & 0x200 != 0 { 4int } else { 0int })) as u8,
    )
}

/// A section holds a right exactly when its segment's initial rights hold
/// it or its own flags add it: read with 0x800, write with 0x400, execute
/// with 0x200.  It holds no other right.
pub proof fn lemma_section_rights_bits(initprot: u32, flags: u32)
    ensures
        spec_section_rights(initprot, flags).spec_contains(Protection::spec_read()) == (initprot & 1 != 0 || flags & 0x800
            != 0),
        spec_section_rights(initprot, flags).spec_contains(Protection::spec_write()) == (initprot & 2 != 0 || flags
            & 0x400 != 0),
        spec_section_rights(initprot, flags).spec_contains(Protection::spec_execute()) == (initprot & 4 != 0 || flags
            & 0x200 != 0),
        spec_section_rights(initprot, flags).spec_bits() < 8,
{
    crate::protection::lemma_rights_of(
        initprot & 1 != 0 || flags & 0x800 != 0,
        initprot & 2 != 0 || flags & 0x400 != 0,
        initprot & 4 != 0 || flags & 0x200 != 0,
    );
}

fn section_rights(initprot: u32, flags: u32) -> (r: Protection)
    ensures
        r == spec_section_rights(initprot, flags),
        r.spec_contains(Protection::spec_read()) == (initprot & 1 != 0 || flags & 0x800 != 0),
        r.spec_contains(Protection::spec_write()) == (initprot & 2 != 0 || flags & 0x400 != 0),
        r.spec_contains(Protection::spec_execute()) == (initprot & 4 != 0 || flags & 0x200 != 0),
        r.spec_bits() < 8,
{
    proof {
        lemma_section_rights_bits(initprot, flags);
    }
    let mut bits: u8 = 0;
    if initprot & 1 != 0 || flags & 0x800 != 0 {
        bits = bits + 1;
    }
    if initprot & 2 != 0 || flags & 0x400 != 0 {
        bits = bits + 2;
    }
    if initprot & 4 != 0 || flags & 0x200 != 0 {
        bits = bits + 4;
    }
    let r = Protection::from_bits(bits);
    proof {
        let expected = ((if initprot & 1 != 0 || flags & 0x800 != 0 { 1int } else { 0int }) + (if initprot & 2 != 0
            || flags & 0x400 != 0 {
            2int
        } else {
            0int
        }) + (if initprot & 4 != 0 || flags & 0x200 != 0 { 4int } else { 0int })) as u8;
        assert(bits == expected);
        Protection::lemma_from_bits(expected);
        Protection::lemma_bits_eq(r, spec_section_rights(initprot, flags));
    }
    r
}

/// The entry of a section: its name, where its bytes lie for an image that
/// slid by `slide`, their number, and its rights.
pub open spec fn spec_section_entry(sec: (Seq<u8>, Seq<u8>, u64, u64, u32), initprot: u32, slide: int) -> (
    Seq<u8>,
    usize,
    usize,
    Protection,
) {
    (sec.0, (slide + sec.2) as usize, sec.3 as usize, spec_section_rights(initprot, sec.4))
}

/// The entries of the sections with bytes, in load order from section `j`
/// of segment `k` on.
pub open spec fn spec_section_entries(
    segs: Seq<(Seq<u8>, u64, u64, u32, Seq<(Seq<u8>, Seq<u8>, u64, u64, u32)>)>,
    slide: int,
    k: int,
    j: int,
) -> Seq<(Seq<u8>, usize, usize, Protection)>
    decreases segs.len() - k, (if 0 <= k < segs.len() { segs[k].4.len() - j } else { 0 }),
{
    if k < 0 || k >= segs.len() {
        seq![]
    } else if j < 0 || j >= segs[k].4.len() {
        spec_section_entries(segs, slide, k + 1, 0)
    } else if segs[k].4[j].3 > 0 {
        seq![spec_section_entry(segs[k].4[j], segs[k].3, slide)] + spec_section_entries(segs, slide, k, j + 1)
    } else {
        spec_section_entries(segs, slide, k, j + 1)
    }
}

/// What the segment commands say.
pub open spec fn spec_segment_views(segs: Seq<MachSegment>) -> Seq<(Seq<u8>, u64, u64, u32, Seq<(Seq<u8>, Seq<u8>, u64, u64, u32)>)> {
    segs.map_values(|s: MachSegment| s@)
}

/// Entry `e` reports section `j` of segment `k`: the section has bytes, the
/// entry carries its name, where its bytes lie after the slide and their
/// number, and holds a right exactly when the segment's initial rights
/// hold it (read 1, write 2, execute 4) or the section's flags add it
/// (read 0x800, write 0x400, execute 0x200), and no other right.
pub open spec fn spec_entry_reports(
    segs: Seq<(Seq<u8>, u64, u64, u32, Seq<(Seq<u8>, Seq<u8>, u64, u64, u32)>)>,
    slide: int,
    e: (Seq<u8>, usize, usize, Protection),
    k: int,
    j: int,
) -> bool {
    &&& 0 <= k < segs.len()
    &&& 0 <= j < segs[k].4.len()
    &&& segs[k].4[j].3 > 0
    &&& e.0 == segs[k].4[j].0
    &&& e.1 == (slide + segs[k].4[j].2) as usize
    &&& e.2 == segs[k].4[j].3 as usize
    &&& e.3.spec_contains(Protection::spec_read()) == (segs[k].3 & 1 != 0 || segs[k].4[j].4 & 0x800 != 0)
    &&& e.3.spec_contains(Protection::spec_write()) == (segs[k].3 & 2 != 0 || segs[k].4[j].4 & 0x400 != 0)
    &&& e.3.spec_contains(Protection::spec_execute()) == (segs[k].3 & 4 != 0 || segs[k].4[j].4 & 0x200 != 0)
    &&& e.3.spec_bits() < 8
}

/// Entry `e` reports some section of the segment commands `segs`.
pub open spec fn spec_reports_a_section(
    segs: Seq<(Seq<u8>, u64, u64, u32, Seq<(Seq<u8>, Seq<u8>, u64, u64, u32)>)>,
    slide: int,
    e: (Seq<u8>, usize, usize, Protection),
) -> bool {
    exists|k: int, j: int| #[trigger] spec_entry_reports(segs, slide, e, k, j)
}

/// Every entry of a walk over the sections, from section `j` of segment
/// `k` on, reports one of the sections, with the rights that the segment
/// and the section's own flags give it.
pub proof fn lemma_section_entries_report(
    segs: Seq<(Seq<u8>, u64, u64, u32, Seq<(Seq<u8>, Seq<u8>, u64, u64, u32)>)>,
    slide: int,
    k: int,
    j: int,
)
    ensures
        forall|i: int|
            0 <= i < spec_section_entries(segs, slide, k, j).len() ==> spec_reports_a_section(
                segs,
                slide,
                #[trigger] spec_section_entries(segs, slide, k, j)[i],
            ),
    decreases segs.len() - k, (if 0 <= k < segs.len() { segs[k].4.len() - j } else { 0 }),
{
    let all = spec_section_entries(segs, slide, k, j);
    if k < 0 || k >= segs.len() {
    } else if j < 0 || j >= segs[k].4.len() {
        lemma_section_entries_report(segs, slide, k + 1, 0);
        let rest = spec_section_entries(segs, slide, k + 1, 0);
        assert forall|i: int| 0 <= i < all.len() implies spec_reports_a_section(segs, slide, #[trigger] all[i]) by {
            assert(all[i] == rest[i]);
        }
    } else {
        lemma_section_entries_report(segs, slide, k, j + 1);
        let rest = spec_section_entries(segs, slide, k, j + 1);
        if segs[k].4[j].3 <= 0 {
            assert forall|i: int| 0 <= i < all.len() implies spec_reports_a_section(segs, slide, #[trigger] all[i]) by {
                assert(all[i] == rest[i]);
            }
        } else {
            let e = spec_section_entry(segs[k].4[j], segs[k].3, slide);
            lemma_section_rights_bits(segs[k].3, segs[k].4[j].4);
            assert(spec_entry_reports(segs, slide, e, k, j));
            assert forall|i: int| 0 <= i < all.len() implies spec_reports_a_section(segs, slide, #[trigger] all[i]) by {
                if i == 0 {
                    assert(all[0] == e);
                } else {
                    assert(all[i] == rest[i - 1]);
                }
            }
        }
    }
}

/// The sections with bytes, in load order, for an image that slid by
/// `slide`: what a walk over the sections visits.
pub fn sections(slide: usize, segs: &[MachSegment]) -> (r: Vec<SectionEntry>)
    requires
        spec_sections_in_range(segs@.map_values(|s: MachSegment| s@), slide as int),
    ensures
        r@.map_values(|e: SectionEntry| e@) == spec_section_entries(segs@.map_values(|s: MachSegment| s@), slide as int, 0, 0),
        forall|i: int| 0 <= i < r@.len() ==> spec_reports_a_section(spec_segment_views(segs@), slide as int, #[trigger] r@[i]@),
{
    proof {
        lemma_section_entries_report(segs@.map_values(|s: MachSegment| s@), slide as int, 0, 0);
    }
    let ghost views = segs@.map_values(|s: MachSegment| s@);
    let ghost all = spec_section_entries(views, slide as int, 0, 0);
    let n = segs.len();
    let mut out: Vec<SectionEntry> = Vec::new();
    let mut k: usize = 0;
    while k < n
        invariant
            n == segs@.len(),
            views == segs@.map_values(|s: MachSegment| s@),
            spec_sections_in_range(views, slide as int),
            0 <= k <= n,
            all == spec_section_entries(views, slide as int, 0, 0),
            out@.map_values(|e: SectionEntry| e@) + spec_section_entries(views, slide as int, k as int, 0) == all,
        decreases n - k,
    {
        let seg = &segs[k];
        assert(views[k as int] == seg@);
        let m = seg.sections.len();
        let mut j: usize = 0;
        while j < m
            invariant
                n == segs@.len(),
                views == segs@.map_values(|s: MachSegment| s@),
                spec_sections_in_range(views, slide as int),
                0 <= k < n,
                seg == &segs@[k as int],
                views[k as int] == seg@,
                m == seg.sections@.len(),
                0 <= j <= m,
                all == spec_section_entries(views, slide as int, 0, 0),
                out@.map_values(|e: SectionEntry| e@) + spec_section_entries(views, slide as int, k as int, j as int) == all,
            decreases m - j,
        {
            let sec = &seg.sections[j];
            assert(views[k as int].4[j as int] == sec@);
            let ghost before = out@.map_values(|e: SectionEntry| e@);
            let ghost rest = spec_section_entries(views, slide as int, k as int, j + 1);
            if sec.size > 0 {
                assert(slide + views[k as int].4[j as int].2 <= usize::MAX);
                let entry = SectionEntry {
                    name: sec.sectname.clone(),
                    data_start: slide + sec.addr as usize,
                    data_size: sec.size as usize,
                    protection: section_rights(seg.initprot, sec.flags),
                };
                assert(entry@ == spec_section_entry(sec@, seg.initprot, slide as int));
                out.push(entry);
                assert(out@.map_values(|e: SectionEntry| e@) =~= before.push(entry@));
                assert(before.push(entry@) + rest =~= before + (seq![entry@] + rest));
            }
            j = j + 1;
        }
        assert(out@.map_values(|e: SectionEntry| e@) + spec_section_entries(views, slide as int, k + 1, 0) == all);
        k = k + 1;
    }
    assert(out@.map_values(|e: SectionEntry| e@) =~= out@.map_values(|e: SectionEntry| e@) + Seq::<(Seq<u8>, usize, usize, Protection)>::empty());
    proof {
        assert(views == spec_segment_views(segs@));
        assert forall|i: int| 0 <= i < out@.len() implies spec_reports_a_section(spec_segment_views(segs@), slide as int, #[trigger] out@[i]@) by {
            assert(out@.map_values(|e: SectionEntry| e@)[i] == out@[i]@);
            assert(all[i] == out@[i]@);
        }
    }
    out
}


/// The segment of a segment command, for an image that slid by `slide`.
pub open spec fn spec_segment_of(s: (Seq<u8>, u64, u64, u32, Seq<(Seq<u8>, Seq<u8>, u64, u64, u32)>), slide: int) -> Segment {
    Segment { start: (slide + s.1) as usize, size: s.2 as usize, protection: spec_vm_protection(s.3) }
}

/// The segments with memory, in load order from segment `k` on.
pub open spec fn spec_segment_list(segs: Seq<(Seq<u8>, u64, u64, u32, Seq<(Seq<u8>, Seq<u8>, u64, u64, u32)>)>, slide: int, k: int) -> Seq<Segment>
    decreases segs.len() - k,
{
    if k < 0 || k >= segs.len() {
        seq![]
    } else if segs[k].2 > 0 {
        seq![spec_segment_of(segs[k], slide)] + spec_segment_list(segs, slide, k + 1)
    } else {
        spec_segment_list(segs, slide, k + 1)
    }
}

/// Segment `s` reports segment command `k`: the command maps memory, and
/// `s` lies at its address after the slide, has its size, and holds a
/// right exactly when the command's initial protection has its bit (read
/// 1, write 2, execute 4), and no other right.
pub open spec fn spec_segment_reports(
    segs: Seq<(Seq<u8>, u64, u64, u32, Seq<(Seq<u8>, Seq<u8>, u64, u64, u32)>)>,
    slide: int,
    s: Segment,
    k: int,
) -> bool {
    &&& 0 <= k < segs.len()
    &&& segs[k].2 > 0
    &&& s.start == (slide + segs[k].1) as usize
    &&& s.size == segs[k].2 as usize
    &&& s.protection.spec_contains(Protection::spec_read()) == (segs[k].3 & 1 != 0)
    &&& s.protection.spec_contains(Protection::spec_write()) == (segs[k].3 & 2 != 0)
    &&& s.protection.spec_contains(Protection::spec_execute()) == (segs[k].3 & 4 != 0)
    &&& s.protection.spec_bits() < 8
}

/// Segment `s` reports some segment command of `segs`.
pub open spec fn spec_reports_a_segment(
    segs: Seq<(Seq<u8>, u64, u64, u32, Seq<(Seq<u8>, Seq<u8>, u64, u64, u32)>)>,
    slide: int,
    s: Segment,
) -> bool {
    exists|k: int| #[trigger] spec_segment_reports(segs, slide, s, k)
}

/// Every segment of a walk over the segment commands from `k` on reports
/// one of the commands, with the rights of its initial protection.
pub proof fn lemma_segment_list_reports(
    segs: Seq<(Seq<u8>, u64, u64, u32, Seq<(Seq<u8>, Seq<u8>, u64, u64, u32)>)>,
    slide: int,
    k: int,
)
    ensures
        forall|i: int|
            0 <= i < spec_segment_list(segs, slide, k).len() ==> spec_reports_a_segment(
                segs,
                slide,
                #[trigger] spec_segment_list(segs, slide, k)[i],
            ),
    decreases segs.len() - k,
{
    let all = spec_segment_list(segs, slide, k);
    if 0 <= k < segs.len() {
        lemma_segment_list_reports(segs, slide, k + 1);
        let rest = spec_segment_list(segs, slide, k + 1);
        if segs[k].2 > 0 {
            let s = spec_segment_of(segs[k], slide);
            lemma_vm_protection_bits(segs[k].3);
            assert(spec_segment_reports(segs, slide, s, k));
            assert forall|i: int| 0 <= i < all.len() implies spec_reports_a_segment(segs, slide, #[trigger] all[i]) by {
                if i == 0 {
                    assert(all[0] == s);
                } else {
                    assert(all[i] == rest[i - 1]);
                }
            }
        } else {
            assert forall|i: int| 0 <= i < all.len() implies spec_reports_a_segment(segs, slide, #[trigger] all[i]) by {
                assert(all[i] == rest[i]);
            }
        }
    }
}

/// The segments with memory, in load order, for an image that slid by
/// `slide`: what a walk over the segments visits.
pub fn segments(slide: usize, segs: &[MachSegment]) -> (r: Vec<Segment>)
    requires
        spec_segments_in_range(segs@.map_values(|s: MachSegment| s@), slide as int),
    ensures
        r@ == spec_segment_list(segs@.map_values(|s: MachSegment| s@), slide as int, 0),
        forall|i: int| 0 <= i < r@.len() ==> spec_reports_a_segment(spec_segment_views(segs@), slide as int, #[trigger] r@[i]),
{
    proof {
        lemma_segment_list_reports(spec_segment_views(segs@), slide as int, 0);
    }
    let ghost views = segs@.map_values(|s: MachSegment| s@);
    let ghost all = spec_segment_list(views, slide as int, 0);
    let n = segs.len();
    let mut out: Vec<Segment> = Vec::new();
    let mut k: usize = 0;
    while k < n
        invariant
            n == segs@.len(),
            views == segs@.map_values(|s: MachSegment| s@),
            spec_segments_in_range(views, slide as int),
            0 <= k <= n,
            all == spec_segment_list(views, slide as int, 0),
            out@ + spec_segment_list(views, slide as int, k as int) == all,
        decreases n - k,
    {
        let seg = &segs[k];
        assert(views[k as int] == seg@);
        let ghost before = out@;
        let ghost rest = spec_segment_list(views, slide as int, k + 1);
        if seg.vmsize > 0 {
            let s = Segment {
                start: slide + seg.vmaddr as usize,
                size: seg.vmsize as usize,
                protection: segment_protection(seg.initprot),
            };
            out.push(s);
            assert(before.push(s) + rest =~= before + (seq![s] + rest));
        }
        k = k + 1;
    }
    assert(out@ =~= out@ + Seq::<Segment>::empty());
    out
}

/// The segment is read-only code with memory, and not the null page.
pub open spec fn spec_is_code_segment(s: (Seq<u8>, u64, u64, u32, Seq<(Seq<u8>, Seq<u8>, u64, u64, u32)>)) -> bool {
    let p = spec_vm_protection(s.3);
    &&& spec_counts_for_extent(s)
    &&& p.spec_contains(Protection::spec_read())
    &&& !p.spec_contains(Protection::spec_write())
    &&& p.spec_contains(Protection::spec_execute())
}

/// The first read-only code segment from segment `k` on.
pub open spec fn spec_first_code_segment(segs: Seq<(Seq<u8>, u64, u64, u32, Seq<(Seq<u8>, Seq<u8>, u64, u64, u32)>)>, k: int) -> Option<int>
    decreases segs.len() - k,
{
    if k < 0 || k >= segs.len() {
        None
    } else if spec_is_code_segment(segs[k]) {
        Some(k)
    } else {
        spec_first_code_segment(segs, k + 1)
    }
}

/// The name `.text`.
pub open spec fn spec_text() -> Seq<u8> {
    seq![46u8, 116u8, 101u8, 120u8, 116u8]
}

/// Where the executable code of an image that slid by `slide` lies: the
/// section `.text` if it has one with bytes, else the first read-only code
/// segment; `None` when there is neither.
pub fn executable_data(slide: usize, segs: &[MachSegment]) -> (r: Option<(usize, usize)>)
    requires
        spec_sections_in_range(segs@.map_values(|s: MachSegment| s@), slide as int),
        spec_segments_in_range(segs@.map_values(|s: MachSegment| s@), slide as int),
    ensures
        ({
            let views = segs@.map_values(|s: MachSegment| s@);
            r == match spec_find_section(views, spec_text(), 0, 0) {
                Some((k, j)) => Some(((slide + views[k].4[j].2) as usize, views[k].4[j].3 as usize)),
                None => match spec_first_code_segment(views, 0) {
                    Some(k) => Some(((slide + views[k].1) as usize, views[k].2 as usize)),
                    None => None,
                },
            }
        }),
{
    let text: [u8; 5] = [46u8, 116u8, 101u8, 120u8, 116u8];
    let text_slice = text.as_slice();
    assert(text_slice@ =~= spec_text());
    if let Some(found) = section_data(slide, segs, text_slice) {
        return Some(found);
    }
    let ghost views = segs@.map_values(|s: MachSegment| s@);
    let n = segs.len();
    let mut k: usize = 0;
    while k < n
        invariant
            n == segs@.len(),
            views == segs@.map_values(|s: MachSegment| s@),
            spec_segments_in_range(views, slide as int),
            0 <= k <= n,
            spec_first_code_segment(views, 0) == spec_first_code_segment(views, k as int),
            spec_find_section(views, spec_text(), 0, 0) is None,
        decreases n - k,
    {
        let seg = &segs[k];
        assert(views[k as int] == seg@);
        if seg.vmsize > 0 && !is_pagezero(seg.segname.as_slice()) {
            let prot = segment_protection(seg.initprot);
            if prot.contains(Protection::read()) && !prot.contains(Protection::write()) && prot.contains(Protection::execute()) {
                return Some((slide + seg.vmaddr as usize, seg.vmsize as usize));
            }
        }
        k = k + 1;
    }
    None
}

/// Whether `target` lies in a segment with memory of an image that slid
/// by `slide`.
pub fn contains_address(slide: usize, segs: &[MachSegment], target: usize) -> (r: bool)
    requires
        spec_segments_in_range(segs@.map_values(|s: MachSegment| s@), slide as int),
    ensures
        r == exists|k: int|
            0 <= k < segs@.len() && (#[trigger] segs@[k]).vmsize > 0 && slide + segs@[k].vmaddr <= target
                < slide + segs@[k].vmaddr + segs@[k].vmsize,
{
    let ghost views = segs@.map_values(|s: MachSegment| s@);
    let n = segs.len();
    let mut k: usize = 0;
    while k < n
        invariant
            n == segs@.len(),
            views == segs@.map_values(|s: MachSegment| s@),
            spec_segments_in_range(views, slide as int),
            0 <= k <= n,
            forall|q: int|
                0 <= q < k ==> !((#[trigger] segs@[q]).vmsize > 0 && slide + segs@[q].vmaddr <= target < slide
                    + segs@[q].vmaddr + segs@[q].vmsize),
        decreases n - k,
    {
        let seg = &segs[k];
        assert(views[k as int] == seg@);
        if seg.vmsize > 0 {
            let seg_start = slide + seg.vmaddr as usize;
            let seg_end = seg_start + seg.vmsize as usize;
            if target >= seg_start && target < seg_end {
                return true;
            }
        }
        k = k + 1;
    }
    false
}

/// The magic number of a 64-bit Mach-O header.
pub open spec fn spec_mh_magic_64() -> int {
    0xFEED_FACF
}

/// Whether the 32-byte image header, read in `order`, is that of a 64-bit
/// image.
pub fn header_is_valid(header: &[u8], order: ByteOrder) -> (r: bool)
    requires
        header@.len() == 32,
    ensures
        r == (spec_at(order, header@, 0, 4) == spec_mh_magic_64()),
{
    read_u32(header, 0, order) == 0xFEED_FACF
}

/// The length of the load commands that follow a 64-bit image header read
/// in `order`, or `None` for another header.
pub fn commands_size(header: &[u8], order: ByteOrder) -> (r: Option<usize>)
    requires
        header@.len() == 32,
    ensures
        r == if spec_at(order, header@, 0, 4) == spec_mh_magic_64() {
            Some(spec_at(order, header@, 20, 4) as usize)
        } else {
            None::<usize>
        },
{
    if !header_is_valid(header, order) {
        return None;
    }
    Some(read_u32(header, 20, order) as usize)
}


/// `n` occurs in `h` at offset `i`.
pub open spec fn spec_occurs_at(h: Seq<u8>, n: Seq<u8>, i: int) -> bool {
    h.subrange(i, i + n.len()) == n
}

/// `n` occurs in `h`.
pub open spec fn spec_contains_bytes(h: Seq<u8>, n: Seq<u8>) -> bool {
    exists|i: int| 0 <= i && i + n.len() <= h.len() && #[trigger] spec_occurs_at(h, n, i)
}

/// The offset of the last `/` of `h`, or -1.
pub open spec fn spec_last_slash(h: Seq<u8>) -> int
    decreases h.len(),
{
    if h.len() == 0 {
        -1
    } else if h.last() == 47 {
        h.len() - 1
    } else {
        spec_last_slash(h.drop_last())
    }
}

/// The last component of a path: what follows its last `/`.
pub open spec fn spec_file_name(h: Seq<u8>) -> Seq<u8> {
    h.skip(spec_last_slash(h) + 1)
}

proof fn lemma_last_slash_bounds(h: Seq<u8>)
    ensures
        -1 <= spec_last_slash(h) < h.len(),
    decreases h.len(),
{
    if h.len() > 0 {
        lemma_last_slash_bounds(h.drop_last());
    }
}

/// An image named `image` is the module asked for by `name`: the name
/// occurs in the image's path, or is the path's file name.
pub fn image_name_matches(image: &str, name: &str) -> (r: bool)
    ensures
        r == (spec_contains_bytes(image.spec_bytes(), name.spec_bytes()) || spec_file_name(image.spec_bytes())
            == name.spec_bytes()),
{
    let h = image.as_bytes();
    let nb = name.as_bytes();
    let hl = h.len();
    let nl = nb.len();
    if nl == 0 {
        assert(h@.subrange(0, 0) =~= nb@);
        assert(spec_occurs_at(h@, nb@, 0));
        return true;
    }
    if nl <= hl {
        let mut i: usize = 0;
        while i <= hl - nl
            invariant
                hl == h@.len(),
                nl == nb@.len(),
                h@ == image.spec_bytes(),
                nb@ == name.spec_bytes(),
                1 <= nl <= hl,
                0 <= i <= hl - nl + 1,
                forall|q: int| 0 <= q < i ==> !#[trigger] spec_occurs_at(h@, nb@, q),
            decreases hl - nl + 1 - i,
        {
            let part = vstd::slice::slice_subrange(h, i, i + nl);
            if bytes_equal(part, nb) {
                assert(spec_occurs_at(h@, nb@, i as int));
                assert(spec_contains_bytes(h@, nb@));
                return true;
            }
            i = i + 1;
        }
    }
    proof {
        if spec_contains_bytes(h@, nb@) {
            let i = choose|i: int| 0 <= i && i + nb@.len() <= h@.len() && #[trigger] spec_occurs_at(h@, nb@, i);
            assert(spec_occurs_at(h@, nb@, i));
        }
    }
    let mut j: usize = hl;
    assert(h@.take(hl as int) =~= h@);
    while j > 0 && h[j - 1] != 47
        invariant
            hl == h@.len(),
            0 <= j <= hl,
            spec_last_slash(h@) == spec_last_slash(h@.take(j as int)),
        decreases j,
    {
        assert(h@.take(j as int).drop_last() =~= h@.take(j - 1));
        j = j - 1;
    }
    proof {
        assert(h@.take(hl as int) =~= h@);
        if j > 0 {
            assert(h@.take(j as int).last() == 47);
        } else {
            assert(h@.take(0) =~= Seq::<u8>::empty());
        }
        lemma_last_slash_bounds(h@);
    }
    let file = vstd::slice::slice_subrange(h, j, hl);
    assert(file@ =~= spec_file_name(h@));
    bytes_equal(file, nb)
}

/// The index of the image whose header lies at `addr`, among the header
/// addresses of the loaded images.
pub fn find_image_index(headers: &[usize], addr: usize) -> (r: Option<usize>)
    ensures
        match r {
            Some(i) => i < headers@.len() && headers@[i as int] == addr && forall|q: int| 0 <= q < i ==> headers@[q] != addr,
            None => forall|q: int| 0 <= q < headers@.len() ==> headers@[q] != addr,
        },
{
    let n = headers.len();
    let mut i: usize = 0;
    while i < n
        invariant
            n == headers@.len(),
            0 <= i <= n,
            forall|q: int| 0 <= q < i ==> headers@[q] != addr,
        decreases n - i,
    {
        if headers[i] == addr {
            return Some(i);
        }
        i = i + 1;
    }
    None
}


/// The region's VM protection has every right asked for in `flags`
/// (read 1, write 2, execute 4, the same bits in both).
pub open spec fn spec_vm_grants(prot: u32, flags: u32) -> bool {
    &&& (flags & 1 != 0 ==> prot & 1 != 0)
    &&& (flags & 2 != 0 ==> prot & 2 != 0)
    &&& (flags & 4 != 0 ==> prot & 4 != 0)
}

/// One step of checking the range from `current` to `end` for `flags`,
/// given the region the kernel reports at or after `current` (its address,
/// size and protection), or `None` when the query failed: the region must
/// not start after `current` and must have every right asked for; the
/// check ends once `end` is reached.
pub fn region_step(current: usize, end: usize, flags: u32, region: Option<(usize, usize, u32)>) -> (r: RegionStep)
    requires
        current < end,
        region matches Some((a, s, p)) ==> a + s <= usize::MAX,
    ensures
        r == match region {
            None => RegionStep::Refused,
            Some((a, s, p)) => if current < a || !spec_vm_grants(p, flags) {
                RegionStep::Refused
            } else if a + s >= end {
                RegionStep::Granted
            } else {
                RegionStep::Next((a + s) as usize)
            },
        },
{
    match region {
        None => RegionStep::Refused,
        Some((addr, size, prot)) => {
            if current < addr {
                return RegionStep::Refused;
            }
            let need_read = flags & 1;
            let need_write = flags & 2;
            let need_exec = flags & 4;
            if (need_read != 0 && prot & 1 == 0) || (need_write != 0 && prot & 2 == 0) || (need_exec != 0 && prot & 4
                == 0) {
                return RegionStep::Refused;
            }
            let next = addr + size;
            if next >= end {
                RegionStep::Granted
            } else {
                RegionStep::Next(next)
            }
        },
    }
}

} // verus!

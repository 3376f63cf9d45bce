use hat::elf::SectionEntry;
use hat::elf::SectionTable;
use hat::process::fast_align_up;
use hat::process::is_executable;
use hat::process::is_readable;
use hat::process::is_writable;
use hat::process::get_executable_data;
use hat::process::load_segments;
use hat::process::module_extent;
use hat::process::parse_hex_or_zero;
use hat::process::parse_map_line;
use hat::process::region_has_flags;
use hat::process::segment_protection;
use hat::process::MapEntry;
use hat::process::Module;
use hat::process::ProgramHeader;
use hat::process::Segment;
use hat::protection::Protection;

fn load(vaddr: usize, memsz: usize, flags: u32) -> ProgramHeader {
    ProgramHeader { p_type: 1, p_flags: flags, p_vaddr: vaddr, p_memsz: memsz, p_align: 0x1000 }
}

#[test]
fn module_address() {
    let m = Module::new(0x7f00_0000);
    assert_eq!(m.address(), 0x7f00_0000);
}

#[test]
fn align_up() {
    assert_eq!(fast_align_up(0x1001, 0x1000), 0x2000);
    assert_eq!(fast_align_up(0x1000, 0x1000), 0x1000);
    assert_eq!(fast_align_up(5, 0), 5);
    assert_eq!(fast_align_up(0, 16), 0);
}

#[test]
fn image_size_from_program_headers() {
    let headers = [
        load(0, 0x1234, 5),
        load(0x3000, 0x10, 6),
        ProgramHeader { p_type: 2, p_flags: 0, p_vaddr: 0x9000_0000, p_memsz: 0x10, p_align: 8 },
    ];
    assert_eq!(module_extent(&headers), 0x4000);
    assert_eq!(module_extent(&[]), 0);
}

#[test]
fn segment_rights() {
    assert_eq!(segment_protection(4 | 1), Protection::read() | Protection::execute());
    assert_eq!(segment_protection(4 | 2), Protection::read() | Protection::write());
    assert_eq!(segment_protection(0), Protection::empty());
    assert_eq!(segment_protection(7).bits(), 7);
}

#[test]
fn loadable_segments() {
    let headers = [
        load(0, 0x100, 5),
        ProgramHeader { p_type: 2, p_flags: 0, p_vaddr: 0x9000, p_memsz: 0x10, p_align: 8 },
        load(0x3000, 0x10, 6),
    ];
    let segs = load_segments(0x10000, &headers);
    assert_eq!(segs.len(), 2);
    assert_eq!(segs[0], Segment { start: 0x10000, size: 0x100, protection: Protection::read() | Protection::execute() });
    assert_eq!(segs[1], Segment { start: 0x13000, size: 0x10, protection: Protection::read() | Protection::write() });
}

fn entry(name: &[u8], start: usize, size: usize, prot: Protection) -> SectionEntry {
    SectionEntry { name: name.to_vec(), data_start: start, data_size: size, protection: prot }
}

#[test]
fn executable_data_choice() {
    let rx = Protection::read() | Protection::execute();
    let rw = Protection::read() | Protection::write();
    let segs = [
        Segment { start: 0x100, size: 0x10, protection: rw },
        Segment { start: 0x200, size: 0x20, protection: rx },
    ];
    let mut with_text = SectionTable::new();
    with_text.insert(entry(b".init", 0x1000, 0x10, rx));
    with_text.insert(entry(b".text", 0x2000, 0x20, rx));
    assert_eq!(get_executable_data(&with_text, &segs), Some((0x2000, 0x20)));

    let mut without_text = SectionTable::new();
    without_text.insert(entry(b".data", 0x3000, 0x10, rw));
    without_text.insert(entry(b".empty", 0x4000, 0, rx));
    without_text.insert(entry(b".init", 0x1000, 0x10, rx));
    assert_eq!(get_executable_data(&without_text, &segs), Some((0x1000, 0x10)));

    let no_code = SectionTable::new();
    assert_eq!(get_executable_data(&no_code, &segs), Some((0x200, 0x20)));
    assert_eq!(get_executable_data(&no_code, &segs[..1]), None);
}

#[test]
fn hex_fields() {
    assert_eq!(parse_hex_or_zero(b"7f00"), 0x7f00);
    assert_eq!(parse_hex_or_zero(b"DeadBeef"), 0xdead_beef);
    assert_eq!(parse_hex_or_zero(b"+10"), 16);
    assert_eq!(parse_hex_or_zero(b""), 0);
    assert_eq!(parse_hex_or_zero(b"+"), 0);
    assert_eq!(parse_hex_or_zero(b"xyz"), 0);
    assert_eq!(parse_hex_or_zero(b"1ffffffffffffffff"), 0);
    assert_eq!(parse_hex_or_zero(b"ffffffffffffffff"), usize::MAX);
}

#[test]
fn map_lines() {
    let e = parse_map_line("7f0000000000-7f0000001000 r-xp 00000000 08:01 123 /lib/x.so").unwrap();
    assert_eq!(e, MapEntry { begin: 0x7f00_0000_0000, end: 0x7f00_0000_1000, prot: 5 });
    let e = parse_map_line("1000-2000 rw-p 0 0 0").unwrap();
    assert_eq!(e.prot, 3);
    assert_eq!(parse_map_line("1000-2000"), None);
    assert_eq!(parse_map_line("1-2-3 rw-p"), None);
    assert_eq!(parse_map_line("12 r--p"), None);
    assert_eq!(parse_map_line("-10 ---p").unwrap(), MapEntry { begin: 0, end: 0x10, prot: 0 });
}

#[test]
fn region_rights() {
    let maps = [
        MapEntry { begin: 0x1000, end: 0x2000, prot: 5 },
        MapEntry { begin: 0x2000, end: 0x3000, prot: 1 },
        MapEntry { begin: 0x4000, end: 0x5000, prot: 7 },
    ];
    assert!(region_has_flags(0x1800, 0x1000, &maps, 1));
    assert!(!region_has_flags(0x1800, 0x1000, &maps, 4));
    assert!(region_has_flags(0x1800, 0x10, &maps, 4));
    assert!(!region_has_flags(0x3000, 0x10, &maps, 1));
    assert!(!region_has_flags(0x1800, 0, &maps, 1));
    // A gap between two entries ends the region early.
    assert!(!region_has_flags(0x2800, 0x2000, &maps, 1));
    assert!(region_has_flags(0x4000, 0x1000, &maps, 7));
}

#[test]
fn module_views() {
    let m = Module::new(0x40_0000);
    let headers = [load(0, 0x1234, 5), load(0x3000, 0x10, 6)];
    assert_eq!(m.get_module_data(&headers), (0x40_0000, 0x4000));
    assert_eq!(m.get_module_data(&[]), (0x40_0000, 0));
    let segs = m.for_each_segment(&headers);
    assert_eq!(segs.len(), 2);
    assert_eq!(segs[1].start, 0x40_3000);
    let mut table = SectionTable::new();
    table.insert(entry(b".text", 0x40_1000, 0x20, Protection::read() | Protection::execute()));
    assert_eq!(m.get_section_data(&table, ".text"), Some((0x40_1000, 0x20)));
    assert_eq!(m.get_section_data(&table, ".data"), None);
}

#[test]
fn region_rights_by_kind() {
    let maps = [MapEntry { begin: 0x1000, end: 0x2000, prot: 5 }, MapEntry { begin: 0x2000, end: 0x3000, prot: 3 }];
    assert!(is_readable(0x1800, 0x1000, &maps));
    assert!(!is_writable(0x1800, 0x1000, &maps));
    assert!(is_writable(0x2000, 0x1000, &maps));
    assert!(is_executable(0x1000, 0x1000, &maps));
    assert!(!is_executable(0x1000, 0x1001, &maps));
    assert!(!is_readable(0x1000, 0, &maps));
}

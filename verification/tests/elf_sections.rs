use hat::bytes::ByteOrder;
use hat::elf::collect_sections;
use hat::elf::parse_elf_header;
use hat::elf::section_headers_size;
use hat::elf::string_table_location;
use hat::elf::SectionEntry;
use hat::elf::SectionTable;
use hat::protection::Protection;

fn put(buf: &mut [u8], at: usize, value: u64, width: usize) {
    for k in 0..width {
        buf[at + k] = (value >> (8 * k)) as u8;
    }
}

fn file_header(shoff: u64, shentsize: u64, shnum: u64, shstrndx: u64) -> Vec<u8> {
    let mut h = vec![0u8; 64];
    h[0] = 0x7f;
    h[1] = b'E';
    h[2] = b'L';
    h[3] = b'F';
    h[4] = 2;
    put(&mut h, 40, shoff, 8);
    put(&mut h, 58, shentsize, 2);
    put(&mut h, 60, shnum, 2);
    put(&mut h, 62, shstrndx, 2);
    h
}

fn section_header(buf: &mut [u8], i: usize, name: u64, flags: u64, addr: u64, offset: u64, size: u64) {
    let at = i * 64;
    put(buf, at, name, 4);
    put(buf, at + 8, flags, 8);
    put(buf, at + 16, addr, 8);
    put(buf, at + 24, offset, 8);
    put(buf, at + 32, size, 8);
}

const STRINGS: &[u8] = b"\0.text\0.data\0\xff\xfe\0";

fn sample_headers() -> Vec<u8> {
    let mut s = vec![0u8; 5 * 64];
    // .text: allocated and executable.
    section_header(&mut s, 0, 1, 6, 0x1000, 0x1000, 0x200);
    // .data: allocated and writable.
    section_header(&mut s, 1, 7, 3, 0x2000, 0x2000, 0x100);
    // A name that is not UTF-8.
    section_header(&mut s, 2, 13, 2, 0x3000, 0x3000, 0x10);
    // The name table itself: not allocated.
    section_header(&mut s, 3, 0, 0, 0, 0x400, STRINGS.len() as u64);
    // Not allocated.
    section_header(&mut s, 4, 7, 0, 0x5000, 0x5000, 0x10);
    s
}

#[test]
fn header_fields() {
    let h = file_header(0x100, 64, 5, 3);
    let info = parse_elf_header(&h, ByteOrder::Little).unwrap();
    assert_eq!(info.shoff, 0x100);
    assert_eq!(info.shentsize, 64);
    assert_eq!(info.shnum, 5);
    assert_eq!(info.shstrndx, 3);
    assert_eq!(section_headers_size(&info), 320);
}

#[test]
fn header_refusals() {
    let mut bad_magic = file_header(0x100, 64, 5, 3);
    bad_magic[1] = b'X';
    assert_eq!(parse_elf_header(&bad_magic, ByteOrder::Little), None);
    let mut class32 = file_header(0x100, 64, 5, 3);
    class32[4] = 1;
    assert_eq!(parse_elf_header(&class32, ByteOrder::Little), None);
    assert_eq!(parse_elf_header(&file_header(0, 64, 5, 3), ByteOrder::Little), None);
    assert_eq!(parse_elf_header(&file_header(0x100, 64, 0, 0), ByteOrder::Little), None);
    assert_eq!(parse_elf_header(&file_header(0x100, 40, 5, 3), ByteOrder::Little), None);
    assert_eq!(parse_elf_header(&file_header(0x100, 64, 5, 5), ByteOrder::Little), None);
}

#[test]
fn name_table_location() {
    let info = parse_elf_header(&file_header(0x100, 64, 5, 3), ByteOrder::Little).unwrap();
    let s = sample_headers();
    assert_eq!(string_table_location(&info, &s), (0x400, STRINGS.len()));
}

#[test]
fn sections_of_a_module() {
    let info = parse_elf_header(&file_header(0x100, 64, 5, 3), ByteOrder::Little).unwrap();
    let s = sample_headers();
    let table = collect_sections(&info, &s, STRINGS, 0x10000);
    assert_eq!(table.entries.len(), 2);
    assert_eq!(table.entries[0].name, b".text".to_vec());
    assert_eq!(table.entries[0].data_start, 0x11000);
    assert_eq!(table.entries[0].data_size, 0x200);
    assert_eq!(table.entries[0].protection, Protection::read() | Protection::execute());
    assert_eq!(table.entries[1].name, b".data".to_vec());
    assert_eq!(table.entries[1].protection, Protection::read() | Protection::write());
    assert_eq!(table.get_section_data(b".text"), Some((0x11000, 0x200)));
    assert_eq!(table.get_section_data(b".data"), Some((0x12000, 0x100)));
    assert_eq!(table.get_section_data(b".bss"), None);
    assert_eq!(table.lookup(b".data"), Some(1));
}

#[test]
fn later_section_of_same_name_replaces() {
    let info = parse_elf_header(&file_header(0x100, 64, 3, 2), ByteOrder::Little).unwrap();
    let mut s = vec![0u8; 3 * 64];
    section_header(&mut s, 0, 1, 2, 0x1000, 0, 0x10);
    section_header(&mut s, 1, 1, 6, 0x4000, 0, 0x20);
    section_header(&mut s, 2, 0, 0, 0, 0, STRINGS.len() as u64);
    let table = collect_sections(&info, &s, STRINGS, 0);
    assert_eq!(table.entries.len(), 1);
    assert_eq!(table.get_section_data(b".text"), Some((0x4000, 0x20)));
}

#[test]
fn table_insert_and_lookup() {
    let mut t = SectionTable::new();
    assert_eq!(t.lookup(b"a"), None);
    t.insert(SectionEntry { name: b"a".to_vec(), data_start: 1, data_size: 2, protection: Protection::read() });
    t.insert(SectionEntry { name: b"b".to_vec(), data_start: 3, data_size: 4, protection: Protection::read() });
    t.insert(SectionEntry { name: b"a".to_vec(), data_start: 5, data_size: 6, protection: Protection::read() });
    assert_eq!(t.entries.len(), 2);
    assert_eq!(t.get_section_data(b"a"), Some((5, 6)));
    assert_eq!(t.get_section_data(b"b"), Some((3, 4)));
}

#[test]
fn big_endian_header_and_sections() {
    let mut h = file_header(0, 0, 0, 0);
    for (at, value, width) in [(40usize, 0x100u64, 8usize), (58, 64, 2), (60, 2, 2), (62, 1, 2)] {
        for k in 0..width {
            h[at + k] = (value >> (8 * (width - 1 - k))) as u8;
        }
    }
    let little = parse_elf_header(&h, ByteOrder::Little).unwrap();
    assert_eq!((little.shoff, little.shentsize, little.shnum, little.shstrndx), (0x1_0000_0000_0000, 0x4000, 0x200, 0x100));
    let info = parse_elf_header(&h, ByteOrder::Big).unwrap();
    assert_eq!((info.shoff, info.shentsize, info.shnum, info.shstrndx), (0x100, 64, 2, 1));
    let mut s = vec![0u8; 2 * 64];
    for (at, value, width) in [(0usize, 1u64, 4usize), (8, 6, 8), (16, 0x1000, 8), (32, 0x200, 8), (64 + 24, 0x400, 8), (64 + 32, 9, 8)] {
        for k in 0..width {
            s[at + k] = (value >> (8 * (width - 1 - k))) as u8;
        }
    }
    assert_eq!(string_table_location(&info, &s), (0x400, 9));
    let table = collect_sections(&info, &s, STRINGS, 0x10000);
    assert_eq!(table.get_section_data(b".text"), Some((0x11000, 0x200)));
}

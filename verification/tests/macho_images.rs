use hat::bytes::ByteOrder;
use hat::macho::commands_size;
use hat::macho::contains_address;
use hat::macho::executable_data;
use hat::macho::find_image_index;
use hat::macho::header_is_valid;
use hat::macho::image_name_matches;
use hat::macho::module_data;
use hat::macho::parse_load_commands;
use hat::macho::section_data;
use hat::macho::section_matches;
use hat::macho::sections;
use hat::macho::segment_protection;
use hat::macho::segments;
use hat::protection::Protection;

fn put(buf: &mut Vec<u8>, value: u64, width: usize) {
    for k in 0..width {
        buf.push((value >> (8 * k)) as u8);
    }
}

fn name16(buf: &mut Vec<u8>, name: &str) {
    let mut field = [0u8; 16];
    field[..name.len()].copy_from_slice(name.as_bytes());
    buf.extend_from_slice(&field);
}

struct Sect<'a> {
    name: &'a str,
    seg: &'a str,
    addr: u64,
    size: u64,
    flags: u32,
}

fn segment(buf: &mut Vec<u8>, name: &str, vmaddr: u64, vmsize: u64, initprot: u32, sects: &[Sect]) {
    put(buf, 0x19, 4);
    put(buf, 72 + 80 * sects.len() as u64, 4);
    name16(buf, name);
    put(buf, vmaddr, 8);
    put(buf, vmsize, 8);
    put(buf, 0, 8);
    put(buf, 0, 8);
    put(buf, 7, 4);
    put(buf, initprot as u64, 4);
    put(buf, sects.len() as u64, 4);
    put(buf, 0, 4);
    for s in sects {
        name16(buf, s.name);
        name16(buf, s.seg);
        put(buf, s.addr, 8);
        put(buf, s.size, 8);
        put(buf, 0, 4);
        put(buf, 0, 4);
        put(buf, 0, 4);
        put(buf, 0, 4);
        put(buf, s.flags as u64, 4);
        put(buf, 0, 4);
        put(buf, 0, 4);
        put(buf, 0, 4);
    }
}

fn sample() -> Vec<u8> {
    let mut b = Vec::new();
    segment(&mut b, "__PAGEZERO", 0, 0x1000, 0, &[]);
    segment(
        &mut b,
        "__TEXT",
        0x1000,
        0x2000,
        5,
        &[
            Sect { name: "__text", seg: "__TEXT", addr: 0x1100, size: 0x100, flags: 0 },
            Sect { name: "__cstring", seg: "__TEXT", addr: 0x1200, size: 0, flags: 0 },
        ],
    );
    // A command that is not a segment.
    put(&mut b, 0x2, 4);
    put(&mut b, 24, 4);
    put(&mut b, 0, 16);
    segment(&mut b, "__DATA", 0x3000, 0x1000, 3, &[Sect { name: "__data", seg: "__DATA", addr: 0x3000, size: 0x10, flags: 0x200 }]);
    // A command of size 0 ends the walk.
    put(&mut b, 0x19, 4);
    put(&mut b, 0, 4);
    b
}

#[test]
fn load_commands() {
    let segs = parse_load_commands(&sample(), ByteOrder::Little);
    assert_eq!(segs.len(), 3);
    assert_eq!(segs[0].segname, b"__PAGEZERO".to_vec());
    assert_eq!(segs[1].segname, b"__TEXT".to_vec());
    assert_eq!(segs[1].vmaddr, 0x1000);
    assert_eq!(segs[1].vmsize, 0x2000);
    assert_eq!(segs[1].initprot, 5);
    assert_eq!(segs[1].sections.len(), 2);
    assert_eq!(segs[1].sections[0].sectname, b"__text".to_vec());
    assert_eq!(segs[1].sections[0].segname, b"__TEXT".to_vec());
    assert_eq!(segs[2].sections[0].flags, 0x200);
    assert_eq!(parse_load_commands(&[], ByteOrder::Little).len(), 0);
}

#[test]
fn image_extent_and_sections() {
    let segs = parse_load_commands(&sample(), ByteOrder::Little);
    let slide = 0x10000;
    assert_eq!(module_data(0x11000, slide, &segs), (0x11000, 0x3000));
    assert_eq!(module_data(0x20000, slide, &segs), (0x20000, 0));
    assert_eq!(section_data(slide, &segs, b"__text"), Some((0x11100, 0x100)));
    assert_eq!(section_data(slide, &segs, b"__TEXT,__text"), Some((0x11100, 0x100)));
    assert_eq!(section_data(slide, &segs, b"__DATA,__text"), None);
    assert_eq!(section_data(slide, &segs, b"__cstring"), None);
    assert_eq!(section_data(slide, &segs, b"__data"), Some((0x13000, 0x10)));
    assert!(section_matches(&segs[2].sections[0], b"__DATA,__data"));
    assert!(!section_matches(&segs[2].sections[0], b"__DATA__data"));
    let all = sections(slide, &segs);
    assert_eq!(all.len(), 2);
    assert_eq!(all[0].name, b"__text".to_vec());
    assert_eq!(all[0].protection, Protection::read() | Protection::execute());
    assert_eq!(all[1].data_start, 0x13000);
    assert_eq!(all[1].protection, Protection::read() | Protection::write() | Protection::execute());
}

#[test]
fn image_segments_and_code() {
    let segs = parse_load_commands(&sample(), ByteOrder::Little);
    let slide = 0x10000;
    let list = segments(slide, &segs);
    assert_eq!(list.len(), 3);
    assert_eq!(list[0].protection, Protection::empty());
    assert_eq!(list[1].start, 0x11000);
    assert_eq!(list[1].protection, Protection::read() | Protection::execute());
    // Mach-O names its code section `__text`, so the code segment is found.
    assert_eq!(executable_data(slide, &segs), Some((0x11000, 0x2000)));
    let mut named = Vec::new();
    segment(&mut named, "__TEXT", 0x1000, 0x2000, 5, &[Sect { name: ".text", seg: "__TEXT", addr: 0x1100, size: 0x100, flags: 0 }]);
    assert_eq!(executable_data(slide, &parse_load_commands(&named, ByteOrder::Little)), Some((0x11100, 0x100)));
    let mut data_only = Vec::new();
    segment(&mut data_only, "__DATA", 0x3000, 0x1000, 3, &[]);
    assert_eq!(executable_data(slide, &parse_load_commands(&data_only, ByteOrder::Little)), None);
    assert!(contains_address(slide, &segs, 0x11500));
    assert!(contains_address(slide, &segs, 0x10000));
    assert!(!contains_address(slide, &segs, 0x14000));
    assert_eq!(segment_protection(7), Protection::read() | Protection::write() | Protection::execute());
    assert_eq!(segment_protection(2), Protection::write());
}

#[test]
fn image_headers_and_names() {
    let mut header = Vec::new();
    put(&mut header, 0xFEED_FACF, 4);
    put(&mut header, 0, 16);
    put(&mut header, 0x1234, 4);
    put(&mut header, 0, 8);
    assert!(header_is_valid(&header, ByteOrder::Little));
    assert_eq!(commands_size(&header, ByteOrder::Little), Some(0x1234));
    assert!(!header_is_valid(&header, ByteOrder::Big));
    assert_eq!(commands_size(&header, ByteOrder::Big), None);
    let swapped: Vec<u8> = header.chunks(4).flat_map(|w| w.iter().rev().copied().collect::<Vec<u8>>()).collect();
    assert!(header_is_valid(&swapped, ByteOrder::Big));
    assert_eq!(commands_size(&swapped, ByteOrder::Big), Some(0x1234));
    header[0] = 0xCE;
    assert!(!header_is_valid(&header, ByteOrder::Little));
    assert_eq!(commands_size(&header, ByteOrder::Little), None);
    assert!(image_name_matches("/usr/lib/libfoo.dylib", "libfoo"));
    assert!(image_name_matches("/usr/lib/libfoo.dylib", "libfoo.dylib"));
    assert!(!image_name_matches("/usr/lib/libfoo.dylib", "libbar"));
    assert!(image_name_matches("app", "app"));
    assert!(image_name_matches("app", ""));
    assert_eq!(find_image_index(&[0x1000, 0x2000, 0x2000], 0x2000), Some(1));
    assert_eq!(find_image_index(&[0x1000], 0x3000), None);
}

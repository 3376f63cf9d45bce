use hat::pe::image_segments;
use hat::pe::image_size;
use hat::pe::nt_headers;
use hat::pe::page_protection;
use hat::pe::region_grants;
use hat::pe::region_step;
use hat::pe::section_data;
use hat::pe::section_headers;
use hat::pe::section_protection;
use hat::process::RegionStep;
use hat::protection::Protection;

fn put(buf: &mut [u8], at: usize, value: u64, width: usize) {
    for k in 0..width {
        buf[at + k] = (value >> (8 * k)) as u8;
    }
}

fn section(buf: &mut [u8], at: usize, name: &[u8], va: u64, raw: u64, characteristics: u64) {
    buf[at..at + name.len()].copy_from_slice(name);
    put(buf, at + 12, va, 4);
    put(buf, at + 16, raw, 4);
    put(buf, at + 36, characteristics, 4);
}

fn sample_image(announced: u64) -> Vec<u8> {
    let mut img = vec![0u8; 0x200];
    img[0] = b'M';
    img[1] = b'Z';
    put(&mut img, 0x3C, 0x80, 4);
    img[0x80] = b'P';
    img[0x81] = b'E';
    put(&mut img, 0x86, announced, 2);
    put(&mut img, 0x80 + 80, 0x5000, 4);
    let table = 0x80 + 268;
    section(&mut img, table, b".text", 0x1000, 0x200, 0x6000_0020);
    section(&mut img, table + 40, b".data", 0x2000, 0x100, 0xC000_0040);
    img
}

#[test]
fn headers() {
    let img = sample_image(2);
    assert_eq!(nt_headers(&img), Some(0x80));
    assert_eq!(image_size(&img), Some(0x5000));
    let mut bad = img.clone();
    bad[0] = b'X';
    assert_eq!(nt_headers(&bad), None);
    let mut negative = img.clone();
    put(&mut negative, 0x3C, 0x8000_0000, 4);
    assert_eq!(nt_headers(&negative), None);
    assert_eq!(nt_headers(&img[..0x40]), None);
    assert_eq!(image_size(&img[..0x90]), None);
}

#[test]
fn sections_of_an_image() {
    let img = sample_image(2);
    let secs = section_headers(&img);
    assert_eq!(secs.len(), 2);
    assert_eq!(secs[0].name, b".text".to_vec());
    assert_eq!(secs[1].name, b".data".to_vec());
    assert_eq!(secs[1].virtual_address, 0x2000);
    assert_eq!(section_data(0x40_0000, &secs, ".text"), Some((0x40_1000, 0x200)));
    assert_eq!(section_data(0x40_0000, &secs, ".data"), Some((0x40_2000, 0x100)));
    assert_eq!(section_data(0x40_0000, &secs, ".bss"), None);
    // Headers announced past the given bytes are left out.
    assert_eq!(section_headers(&sample_image(9)).len(), 2);
    assert_eq!(section_headers(&sample_image(1)).len(), 1);
    assert_eq!(section_headers(&img[..0x18C + 40]).len(), 1);
    let segs = image_segments(0x40_0000, &secs);
    assert_eq!(segs.len(), 2);
    assert_eq!(segs[0].start, 0x40_1000);
    assert_eq!(segs[0].protection, Protection::read() | Protection::execute());
    assert_eq!(segs[1].protection, Protection::read() | Protection::write());
    assert_eq!(section_protection(0x2000_0000), Protection::execute());
}

#[test]
fn page_rights() {
    let r = Protection::read();
    let w = Protection::write();
    let x = Protection::execute();
    assert_eq!(page_protection(r | w | x), 0x40);
    assert_eq!(page_protection(w | x), 0x40);
    assert_eq!(page_protection(r | x), 0x20);
    assert_eq!(page_protection(x), 0x10);
    assert_eq!(page_protection(r | w), 0x04);
    assert_eq!(page_protection(w), 0x04);
    assert_eq!(page_protection(r), 0x02);
    assert_eq!(page_protection(Protection::empty()), 0);
    assert!(region_grants(0x02, 1));
    assert!(!region_grants(0x02, 2));
    // One of the rights asked for is enough.
    assert!(region_grants(0x20, 1 | 2));
    assert!(!region_grants(0x01, 7));
    assert!(!region_grants(0x40, 0));
}

#[test]
fn region_walk_steps() {
    assert_eq!(region_step(0x1000, 0x3000, 1, None), RegionStep::Refused);
    assert_eq!(region_step(0x1000, 0x3000, 1, Some((0x1000, 0x1000, 0x02))), RegionStep::Next(0x2000));
    assert_eq!(region_step(0x1000, 0x3000, 1, Some((0x1000, 0x2000, 0x02))), RegionStep::Granted);
    assert_eq!(region_step(0x1800, 0x3000, 1, Some((0x1000, 0x2000, 0x02))), RegionStep::Refused);
    assert_eq!(region_step(0x1000, 0x3000, 4, Some((0x1000, 0x2000, 0x02))), RegionStep::Refused);
    assert_eq!(hat::macho::region_step(0x1800, 0x3000, 1, Some((0x1000, 0x2000, 1))), RegionStep::Granted);
    assert_eq!(hat::macho::region_step(0x1000, 0x3000, 1, Some((0x1800, 0x2000, 1))), RegionStep::Refused);
    assert_eq!(hat::macho::region_step(0x1000, 0x3000, 1 | 4, Some((0x1000, 0x800, 5))), RegionStep::Next(0x1800));
    assert_eq!(hat::macho::region_step(0x1000, 0x3000, 1 | 4, Some((0x1000, 0x800, 1))), RegionStep::Refused);
    assert_eq!(hat::macho::region_step(0x1000, 0x3000, 1, None), RegionStep::Refused);
}

use hat::arch::align_mask;
use hat::arch::create_align_mask_16;
use hat::arch::create_align_mask_32;
use hat::arch::create_align_mask_64;
use hat::arch::create_align_mask_neon;
use hat::bytes::read_le;
use hat::protection::Protection;
use hat::result::ConstScanResult;
use hat::scanner::first_found;
use hat::scanner::parallel_plan;
use hat::system::resolve_scan_mode;
use hat::system::CpuExtensions;
use hat::system::ScanMode;
use hat::system::SystemInfo;

fn ext(sse41: bool, avx2: bool, avx512f: bool, avx512bw: bool) -> CpuExtensions {
    CpuExtensions { sse41, avx2, avx512f, avx512bw, bmi: false }
}

#[test]
fn scan_mode_choice() {
    assert_eq!(resolve_scan_mode(Some(ext(true, true, true, true)), true, false), ScanMode::Avx512);
    assert_eq!(resolve_scan_mode(Some(ext(true, true, true, false)), true, false), ScanMode::Avx2);
    assert_eq!(resolve_scan_mode(Some(ext(true, true, true, true)), false, false), ScanMode::Avx2);
    assert_eq!(resolve_scan_mode(Some(ext(true, false, false, false)), true, false), ScanMode::Sse);
    assert_eq!(resolve_scan_mode(Some(ext(false, false, false, false)), true, false), ScanMode::Single);
    assert_eq!(resolve_scan_mode(None, false, true), ScanMode::Neon);
    assert_eq!(resolve_scan_mode(None, false, false), ScanMode::Single);
}

#[test]
fn page_size_fact() {
    let s = SystemInfo::new(4096);
    assert_eq!(s.page_size(), 4096);
}

#[test]
fn alignment_masks() {
    assert_eq!(create_align_mask_16(0), 1);
    assert_eq!(create_align_mask_16(19), 1 << 3);
    assert_eq!(create_align_mask_32(3), (1 << 3) | (1 << 19));
    assert_eq!(create_align_mask_32(17), 1 << 17);
    assert_eq!(create_align_mask_64(5), (1 << 5) | (1 << 21) | (1 << 37) | (1 << 53));
    assert_eq!(create_align_mask_neon(2), 0xF << 8);
    assert_eq!(create_align_mask_neon(18), 0xF << 8);
    assert_eq!(align_mask(40, 32), 1 << 8 | 1 << 24);
}

#[test]
fn little_endian_reads() {
    let data = [0x01u8, 0x02, 0x03, 0x04, 0xFF];
    assert_eq!(read_le(&data, 0, 4), 0x04030201);
    assert_eq!(read_le(&data, 3, 2), 0xFF04);
    assert_eq!(read_le(&data, 4, 1), 0xFF);
    assert_eq!(read_le(&data, 2, 0), 0);
}

#[test]
fn protection_algebra() {
    let rw = Protection::read() | Protection::write();
    assert_eq!(rw.bits(), 3);
    assert!(rw.contains(Protection::read()));
    assert!(!rw.contains(Protection::execute()));
    assert_eq!((rw & Protection::write()).bits(), 2);
    assert_eq!((rw ^ Protection::read()).bits(), 2);
    let mut p = Protection::empty();
    p |= Protection::execute();
    p |= Protection::read();
    assert_eq!(p.bits(), 5);
    p &= Protection::read();
    assert_eq!(p, Protection::read());
    p ^= Protection::read();
    assert_eq!(p, Protection::empty());
    assert_eq!(Protection::from_bits(6), Protection::write() | Protection::execute());
}

#[test]
fn parallel_chunks() {
    assert_eq!(parallel_plan(1000, 4, 8), None);
    assert_eq!(parallel_plan(4 * 1024 * 1024, 4, 1), None);
    let plan = parallel_plan(4 * 1024 * 1024, 4, 4).unwrap();
    assert_eq!(plan.len(), 4);
    assert_eq!(plan[0], (0, 1024 * 1024 + 3));
    assert_eq!(plan[1], (1024 * 1024, 2 * 1024 * 1024 + 3));
    assert_eq!(plan[3], (3 * 1024 * 1024, 4 * 1024 * 1024));
    let results = [ConstScanResult::null(), ConstScanResult::new(7), ConstScanResult::new(3)];
    assert_eq!(first_found(&results).get(), Some(7));
    assert_eq!(first_found(&[ConstScanResult::null()]).get(), None);
}

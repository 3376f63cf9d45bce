use hat::bytes::ByteOrder;
use hat::result::ConstScanResult;
use hat::scanner::find_all_pattern;
use hat::scanner::find_all_pattern_bounded;
use hat::scanner::find_first_all_index;
use hat::scanner::find_first_pair;
use hat::scanner::find_pattern;
use hat::scanner::scan_single_raw;
use hat::scanner::apply_hints_x86_64;
use hat::scanner::find_pair;
use hat::scanner::ScanAlignment;
use hat::scanner::ScanContext;
use hat::scanner::ScanHint;
use hat::scanner::find_pattern_internal;
use hat::arch::scan_sse;
use hat::arch::scan_avx2;
use hat::arch::scan_avx512;
use hat::arch::scan_neon;
use hat::system::ScanMode;
use hat::signature::parse_signature;
use hat::signature::SignatureElement;

/// The byte order of this machine, which values in memory are stored in.
fn native_order() -> ByteOrder {
    if u16::from_ne_bytes([1, 0]) == 1 {
        ByteOrder::Little
    } else {
        ByteOrder::Big
    }
}

fn scan_at_offset(
    sig_bytes: &[u8],
    sig: &[SignatureElement],
    offset: usize,
    buf_size: usize,
    alignment: ScanAlignment,
) -> ConstScanResult {
    let mut data = vec![0u8; buf_size];
    data[offset..offset + sig_bytes.len()].copy_from_slice(sig_bytes);
    find_pattern(&data, sig, alignment, ScanHint::none())
}

fn run_exhaustive_test(sig_size: usize, max_buf_size: usize, alignment: ScanAlignment) {
    let sig_data: Vec<u8> = (1..=sig_size).map(|i| (i & 0xFF) as u8).collect();
    let sig_str: String = sig_data.iter().map(|b| format!("{:02X}", b)).collect::<Vec<_>>().join(" ");
    let sig = parse_signature(&sig_str).unwrap();
    assert_eq!(sig.len(), sig_size);

    for buf_size in sig_size..=max_buf_size {
        for offset in 0..=(buf_size - sig_size) {
            if alignment == ScanAlignment::X16 && offset % 16 != 0 {
                continue;
            }
            let result = scan_at_offset(&sig_data, &sig, offset, buf_size, alignment);
            assert!(result.has_result(), "sig_size={} buf_size={} offset={}", sig_size, buf_size, offset);
        }
    }
}

#[test]
fn test_exhaustive_x1() {
    for sig_size in [1usize, 3, 8, 16, 32, 64] {
        run_exhaustive_test(sig_size, 256, ScanAlignment::X1);
    }
}

#[test]
fn test_exhaustive_x16() {
    for sig_size in [1usize, 3, 8, 16, 32, 64] {
        run_exhaustive_test(sig_size, 256, ScanAlignment::X16);
    }
}

fn run_exhaustive_wildcard_test(sig_size: usize, max_buf_size: usize, alignment: ScanAlignment) {
    if sig_size < 2 {
        return;
    }
    let mut sig_data: Vec<u8> = (2..=sig_size).map(|i| (i & 0xFF) as u8).collect();
    sig_data.insert(0, 0x00);
    let expected_offset = 0usize;

    let mut sig_elems: Vec<SignatureElement> = Vec::with_capacity(sig_size);
    sig_elems.push(SignatureElement::wildcard());
    for i in 0..sig_size.saturating_sub(1) {
        sig_elems.push(SignatureElement::from_value(sig_data[i + 1]));
    }
    sig_elems[1] = SignatureElement::from_value_mask(sig_data[1], 0xF0);

    for buf_size in sig_size..=max_buf_size {
        for offset in 0..=(buf_size - sig_size) {
            if alignment == ScanAlignment::X16 && offset % 16 != 0 {
                continue;
            }
            let mut data = vec![0u8; buf_size];
            data[offset..offset + sig_size].copy_from_slice(&sig_data);
            let result = find_pattern(&data, &sig_elems, alignment, ScanHint::none());
            assert!(result.has_result(), "wildcard sig_size={} buf_size={} offset={}", sig_size, buf_size, offset);
            assert_eq!(
                result.get().unwrap(),
                offset + expected_offset,
                "wildcard sig_size={} buf_size={} offset={}",
                sig_size,
                buf_size,
                offset
            );
        }
    }
}

#[test]
fn test_exhaustive_x1_wildcard() {
    for sig_size in [1usize, 3, 8, 16, 32, 64] {
        run_exhaustive_wildcard_test(sig_size, 256, ScanAlignment::X1);
    }
}

#[test]
fn test_exhaustive_x16_wildcard() {
    for sig_size in [1usize, 3, 8, 16, 32, 64] {
        run_exhaustive_wildcard_test(sig_size, 256, ScanAlignment::X16);
    }
}

fn scan_single_mode(data: &[u8], sig: &[SignatureElement], _alignment: ScanAlignment) -> ConstScanResult {
    scan_single_raw(data, 0, sig, find_first_all_index(sig))
}

fn test_mode_exhaustive<F>(label: &str, mode_scan: F)
where
    F: Fn(&[u8], &[SignatureElement], ScanAlignment) -> ConstScanResult,
{
    for sig_size in [1usize, 3, 8, 16, 32, 64] {
        let sig_data: Vec<u8> = (1..=sig_size).map(|i| (i & 0xFF) as u8).collect();
        let sig: Vec<SignatureElement> = sig_data.iter().map(|b| SignatureElement::from_value(*b)).collect();
        for buf_size in sig_size..=256usize.min(sig_size + 64) {
            for offset in 0..=(buf_size - sig_size) {
                let mut data = vec![0u8; buf_size];
                data[offset..offset + sig_size].copy_from_slice(&sig_data);
                let result = mode_scan(&data, &sig, ScanAlignment::X1);
                assert!(result.has_result(), "{} sig_size={} buf_size={} offset={}", label, sig_size, buf_size, offset);
            }
        }
    }
}

#[test]
fn test_mode_single_exhaustive() {
    test_mode_exhaustive("Single", scan_single_mode);
}

fn mode_context<'a>(sig: &'a [SignatureElement], alignment: ScanAlignment, mode: ScanMode) -> ScanContext<'a> {
    ScanContext {
        signature: sig,
        alignment,
        hints: ScanHint::none(),
        anchor_index: find_first_all_index(sig),
        pair_index: None,
        mode,
    }
}

fn scan_sse_mode(data: &[u8], sig: &[SignatureElement], alignment: ScanAlignment) -> ConstScanResult {
    let ctx = mode_context(sig, alignment, ScanMode::Sse);
    scan_sse(data, data.as_ptr() as usize, &ctx)
}

fn scan_avx2_mode(data: &[u8], sig: &[SignatureElement], alignment: ScanAlignment) -> ConstScanResult {
    let ctx = mode_context(sig, alignment, ScanMode::Avx2);
    scan_avx2(data, data.as_ptr() as usize, &ctx)
}

fn scan_avx512_mode(data: &[u8], sig: &[SignatureElement], alignment: ScanAlignment) -> ConstScanResult {
    let ctx = mode_context(sig, alignment, ScanMode::Avx512);
    scan_avx512(data, data.as_ptr() as usize, &ctx)
}

fn scan_neon_mode(data: &[u8], sig: &[SignatureElement], alignment: ScanAlignment) -> ConstScanResult {
    let ctx = mode_context(sig, alignment, ScanMode::Neon);
    scan_neon(data, data.as_ptr() as usize, &ctx)
}

#[test]
fn test_mode_sse_exhaustive() {
    test_mode_exhaustive("SSE", scan_sse_mode);
}

#[test]
fn test_mode_avx2_exhaustive() {
    test_mode_exhaustive("AVX2", scan_avx2_mode);
}

#[test]
fn test_mode_neon_exhaustive() {
    test_mode_exhaustive("NEON", scan_neon_mode);
}

#[test]
fn mode_avx512_exhaustive() {
    test_mode_exhaustive("AVX-512", scan_avx512_mode);
}

#[test]
fn test_find_pattern_simple() {
    let data = [0x00u8, 0x48, 0x8D, 0x05, 0xBE, 0x53, 0x23, 0x01, 0xE8, 0x00];
    let sig = parse_signature("48 8D 05 ? ? ? ? E8").unwrap();
    let result = find_pattern(&data, &sig, ScanAlignment::X1, ScanHint::none());
    assert!(result.has_result());
    assert_eq!(result.get(), Some(1));
}

#[test]
fn test_find_pattern_not_found() {
    let data = [0x00u8; 100];
    let sig = parse_signature("48 8D 05").unwrap();
    let result = find_pattern(&data, &sig, ScanAlignment::X1, ScanHint::none());
    assert!(!result.has_result());
}

#[test]
fn test_find_all_pattern() {
    let data = [0x01u8, 0x02, 0x01, 0x02, 0x03];
    let sig = parse_signature("01 02").unwrap();
    let results = find_all_pattern(&data, &sig, ScanAlignment::X1, ScanHint::none());
    assert_eq!(results.len(), 2);
}

#[test]
fn test_find_all_pattern_bounded() {
    let data = [0x01u8, 0x02, 0x01, 0x02, 0x01, 0x02, 0x03];
    let sig = parse_signature("01 02").unwrap();
    let mut out = [None; 3];
    let count = find_all_pattern_bounded(&data, &mut out, &sig, ScanAlignment::X1, ScanHint::none());
    assert_eq!(count, 3);
    for ptr in &out {
        assert!(ptr.is_some());
    }
}

#[test]
fn test_find_all_pattern_bounded_partial() {
    let data = [0x01u8, 0x02, 0x01, 0x02, 0x03];
    let sig = parse_signature("01 02").unwrap();
    let mut out = [None; 5];
    let count = find_all_pattern_bounded(&data, &mut out, &sig, ScanAlignment::X1, ScanHint::none());
    assert_eq!(count, 2);
}

#[test]
fn test_scan_result_rel() {
    let data = [0x48u8, 0x8D, 0x05, 0xBE, 0x53, 0x23, 0x01];
    let sig = parse_signature("48 8D 05 ? ? ? ?").unwrap();
    let result = find_pattern(&data, &sig, ScanAlignment::X1, ScanHint::none());
    assert!(result.has_result());
    let rel_addr = result.rel(&data, 2, 0, native_order());
    let rel_val: i32 = result.read_i32(&data, 2, native_order());
    let expected = 0i128 + 2 + rel_val as i128 + 4;
    assert_eq!(rel_addr, Some(expected));
}

#[test]
fn test_aligned_scan() {
    let mut data = [0x00u8; 64];
    data[16] = 0x48;
    data[17] = 0x8D;
    let sig = parse_signature("48 8D").unwrap();

    let x1_result = find_pattern(&data, &sig, ScanAlignment::X1, ScanHint::none());
    assert!(x1_result.has_result());

    let x16_result = find_pattern(&data, &sig, ScanAlignment::X16, ScanHint::none());
    assert!(x16_result.has_result());
    assert_eq!(x16_result.get(), Some(16));
}

#[test]
fn test_x16_rejects_unaligned() {
    // The scalar scanner does not filter offsets by alignment; the alignment
    // only spaces the results of repeated scans.  This test records that.
}

#[test]
fn test_find_empty_buffer() {
    let sig = parse_signature("01 02").unwrap();
    let data: [u8; 0] = [];
    let result = find_pattern(&data, &sig, ScanAlignment::X1, ScanHint::none());
    assert!(!result.has_result());
}

#[test]
fn test_find_sig_larger_than_buffer() {
    let sig = parse_signature("01 02 03").unwrap();
    let data = [0x01u8, 0x02];
    let result = find_pattern(&data, &sig, ScanAlignment::X1, ScanHint::none());
    assert!(!result.has_result());
}

#[test]
fn test_find_single_byte_sig() {
    let data = [0x00u8, 0x42, 0x00];
    let sig = parse_signature("42").unwrap();
    let result = find_pattern(&data, &sig, ScanAlignment::X1, ScanHint::none());
    assert!(result.has_result());
    assert_eq!(result.get(), Some(1));
}

#[test]
fn test_scan_result_read_unaligned() {
    let data = [0x48u8, 0x8D, 0x05, 0xBE, 0x53, 0x23, 0x01, 0xE8];
    let sig = parse_signature("48 8D 05 ? ? ? ? E8").unwrap();
    let result = find_pattern(&data, &sig, ScanAlignment::X1, ScanHint::none());
    assert!(result.has_result());
    let val: i32 = result.read_i32(&data, 2, native_order());
    assert_eq!(val, 0x2353BE05);
}

#[test]
fn test_nibble_mask() {
    let sig = parse_signature("12 ?3").unwrap();
    assert_eq!(sig[1].mask(), 0x0F);
    let data = [0x12u8, 0x13, 0x23, 0x33, 0x00];
    let result = find_pattern(&data, &sig, ScanAlignment::X1, ScanHint::none());
    assert!(result.has_result());
    assert_eq!(result.get(), Some(0));
}

#[test]
fn test_nibble_mask_rejects_mismatch() {
    let sig = parse_signature("12 ?3").unwrap();
    let data = [0x12u8, 0x3A, 0x00];
    let result = find_pattern(&data, &sig, ScanAlignment::X1, ScanHint::none());
    assert!(!result.has_result());
}

#[test]
fn test_binary_sig() {
    let sig = parse_signature("1100???? 10101010").unwrap();
    assert_eq!(sig.len(), 2);
    let data = [0xCCu8, 0xAA];
    let result = find_pattern(&data, &sig, ScanAlignment::X1, ScanHint::none());
    assert!(result.has_result());
}

#[test]
fn test_hint_operations() {
    let hint = ScanHint::x86_64() | ScanHint::pair0();
    assert!(hint.contains(ScanHint::x86_64()));
    assert!(hint.contains(ScanHint::pair0()));
    assert!(ScanHint::none().contains(ScanHint::none()));
    assert!(!ScanHint::none().contains(ScanHint::x86_64()));
    assert_eq!(ScanHint::none() | ScanHint::x86_64(), ScanHint::x86_64());
}

#[test]
fn test_find_first_all_index_edge() {
    assert_eq!(find_first_all_index(&[]), 0);
    let sig = [SignatureElement::wildcard()];
    assert_eq!(find_first_all_index(&sig), 0);
}

#[test]
fn test_scan_single_raw_nomatch() {
    let data = [0xFFu8; 10];
    let sig = [SignatureElement::from_value(0x42)];
    let result = scan_single_raw(&data, 0, &sig, 0);
    assert!(!result.has_result());
}

#[test]
fn test_find_pattern_auto_mode_all_sizes() {
    for sig_size in [1usize, 2, 3, 7, 8, 15, 16, 31, 32, 63, 64] {
        let sig_data: Vec<u8> = (0..sig_size).map(|i| (i & 0xFF) as u8).collect();
        let sig_str: String = sig_data.iter().map(|b| format!("{:02X}", b)).collect::<Vec<_>>().join(" ");
        let sig = parse_signature(&sig_str).unwrap();
        let data = sig_data.clone();
        let result = find_pattern(&data, &sig, ScanAlignment::X1, ScanHint::none());
        assert!(result.has_result(), "sig_size={}", sig_size);
        assert_eq!(result.get(), Some(0));
        for mode in [ScanMode::Sse, ScanMode::Avx2, ScanMode::Avx512, ScanMode::Neon] {
            let r = find_pattern_internal(&data, data.as_ptr() as usize, &sig, ScanAlignment::X1, ScanHint::none(), mode);
            assert_eq!(r.get(), Some(0), "sig_size={} mode={:?}", sig_size, mode);
        }
    }
}

#[test]
fn test_find_all_pattern_exact() {
    let data = [0x01u8; 100];
    let sig = parse_signature("01 01").unwrap();
    let results = find_all_pattern(&data, &sig, ScanAlignment::X1, ScanHint::none());
    assert_eq!(results.len(), 99);
}

#[test]
fn test_bounded_vs_unbounded_match() {
    let data = [0x01u8, 0x02, 0x01, 0x02, 0x01, 0x02, 0x03];
    let sig = parse_signature("01 02").unwrap();
    let unbounded = find_all_pattern(&data, &sig, ScanAlignment::X1, ScanHint::none());
    let mut out = [None; 10];
    let count = find_all_pattern_bounded(&data, &mut out, &sig, ScanAlignment::X1, ScanHint::none());
    assert_eq!(unbounded.len(), count);
    for i in 0..count {
        assert_eq!(Some(unbounded[i]), out[i]);
    }
}

#[test]
fn find_all_x16_spacing() {
    let data = [0x01u8; 40];
    let sig = parse_signature("01").unwrap();
    let results = find_all_pattern(&data, &sig, ScanAlignment::X16, ScanHint::none());
    assert_eq!(results, vec![0, 16, 32]);
    let results = find_all_pattern(&data, &sig, ScanAlignment::X1, ScanHint::none());
    assert_eq!(results.len(), 40);
}

#[test]
fn find_pattern_first_of_several() {
    let data = [0x00u8, 0xAB, 0x10, 0xAB, 0x11, 0xAB, 0x12];
    let sig = parse_signature("AB 1?").unwrap();
    assert_eq!(find_pattern(&data, &sig, ScanAlignment::X1, ScanHint::none()).get(), Some(1));
    let sig = parse_signature("? AB 11").unwrap();
    assert_eq!(find_pattern(&data, &sig, ScanAlignment::X1, ScanHint::none()).get(), Some(2));
    assert_eq!(find_pattern(&data, &sig, ScanAlignment::X16, ScanHint::x86_64()).get(), Some(2));
}

#[test]
fn scan_from_offset_and_read() {
    let data = [0xAAu8, 0xBB, 0xAA, 0xBB, 0x01, 0x02, 0x03, 0x04];
    let sig = parse_signature("AA BB").unwrap();
    let ctx = ScanContext::new(&sig, ScanAlignment::X1, ScanHint::none(), ScanMode::Single);
    assert_eq!(ctx.anchor_index, 0);
    assert_eq!(ctx.pair_index, Some(0));
    assert_eq!(ctx.scan_range(&data, 0, 1, data.len()).get(), Some(2));
    assert_eq!(ctx.scan_range(&data, 0, 1, 3).get(), None);
    let r = ctx.scan(&data, 0);
    assert_eq!(r.read(&data, 4, 4, ByteOrder::Little), 0x04030201);
    assert_eq!(r.read(&data, 4, 2, ByteOrder::Little), 0x0201);
    assert_eq!(r.index(&data, 4, 2, 4, ByteOrder::Little), 0x0201 / 4);
    assert_eq!(r.read(&data, 4, 4, ByteOrder::Big), 0x01020304);
    assert_eq!(r.read(&data, 4, 2, ByteOrder::Big), 0x0102);
    assert_eq!(r.index(&data, 4, 2, 4, ByteOrder::Big), 0x0102 / 4);
    assert_eq!(ConstScanResult::null().rel(&data, 0, 0, ByteOrder::Little), None);
}

#[test]
fn negative_displacement() {
    let data = [0x00u8, 0x00, 0xE8, 0xFC, 0xFF, 0xFF, 0xFF];
    let sig = parse_signature("E8 ? ? ? ?").unwrap();
    let r = find_pattern(&data, &sig, ScanAlignment::X1, ScanHint::none());
    assert_eq!(r.read_i32(&data, 1, ByteOrder::Little), -4);
    assert_eq!(r.rel(&data, 1, 0, ByteOrder::Little), Some(2 + 1 - 4 + 4));
    assert_eq!(r.read_i32(&data, 1, ByteOrder::Big), 0xFCFF_FFFFu32 as i32);
}

#[test]
fn first_pair_and_hints() {
    let sig = parse_signature("? AB ? CD EF 12").unwrap();
    assert_eq!(find_first_pair(&sig), Some(3));
    assert_eq!(find_first_all_index(&sig), 1);
    assert_eq!(find_first_pair(&parse_signature("AB ? CD").unwrap()), None);
    let pairs = [(0x01u8, 0x02u8), (0xCD, 0xEF), (0xEF, 0x12)];
    let scores = [5u16, 1, 9];
    assert_eq!(find_pair(&pairs, (0xEF, 0x12)), Some(2));
    assert_eq!(find_pair(&pairs, (0xEF, 0x13)), None);
    // (CD EF) scores 1, (EF 12) scores 9: the better rated pair wins.
    assert_eq!(apply_hints_x86_64(&sig, ScanHint::x86_64(), &pairs, &scores), Some(4));
    // Without the x86-64 hint the first pair is taken.
    assert_eq!(apply_hints_x86_64(&sig, ScanHint::none(), &pairs, &scores), Some(3));
    // With PAIR0 only the first position is considered.
    assert_eq!(apply_hints_x86_64(&sig, ScanHint::x86_64() | ScanHint::pair0(), &pairs, &scores), None);
    let sig2 = parse_signature("AB CD EF").unwrap();
    assert_eq!(apply_hints_x86_64(&sig2, ScanHint::x86_64() | ScanHint::pair0(), &pairs, &scores), Some(0));
}

#[test]
fn vector_modes_agree_with_x1() {
    // Matches at every offset of a 200-byte buffer, with a pair and
    // without, for each scanner and a few base addresses.
    let sigs = [parse_signature("AA BB ? CC").unwrap(), parse_signature("? BB ? CC").unwrap()];
    for sig in sigs.iter() {
        for offset in 0..190usize {
            let mut data = vec![0u8; 200];
            data[offset] = 0xAA;
            data[offset + 1] = 0xBB;
            data[offset + 2] = 0x11;
            data[offset + 3] = 0xCC;
            let expected = find_pattern(&data, sig, ScanAlignment::X1, ScanHint::none()).get();
            assert!(expected.is_some());
            for base in [0usize, 1, 7, 15, 16, 33, 4096] {
                for mode in [ScanMode::Single, ScanMode::Sse, ScanMode::Avx2, ScanMode::Avx512, ScanMode::Neon] {
                    let r = find_pattern_internal(&data, base, sig, ScanAlignment::X1, ScanHint::none(), mode);
                    assert_eq!(r.get(), expected, "offset={} base={} mode={:?}", offset, base, mode);
                }
            }
        }
    }
}

#[test]
fn x16_vector_scan_keeps_aligned_lanes() {
    // SSE blocks from address 0: only starts on 16-byte addresses count in
    // the blocks; the bytes before the first block and after the last are
    // scanned one by one.
    let sig = parse_signature("AA BB").unwrap();
    let mut data = vec![0u8; 64];
    data[5] = 0xAA;
    data[6] = 0xBB;
    let sse = |d: &[u8], base: usize| find_pattern_internal(d, base, &sig, ScanAlignment::X16, ScanHint::none(), ScanMode::Sse).get();
    assert_eq!(sse(&data, 0), None);
    assert_eq!(find_pattern_internal(&data, 0, &sig, ScanAlignment::X1, ScanHint::none(), ScanMode::Sse).get(), Some(5));
    // At address 11 + 5 = 16 the same bytes lie before the first block.
    assert_eq!(sse(&data, 11), Some(5));
    data[16] = 0xAA;
    data[17] = 0xBB;
    assert_eq!(sse(&data, 0), Some(16));
    let mut tail = vec![0u8; 64];
    tail[50] = 0xAA;
    tail[51] = 0xBB;
    assert_eq!(sse(&tail, 0), Some(50));
}

#[test]
fn x16_lanes_differ_by_block_width() {
    // The pair sits at element 17: AVX2 keeps only lane 17 of its 32-byte
    // blocks, so starts on odd multiples of 16 are passed over, while SSE
    // keeps every 16-byte start.
    let mut text = String::new();
    for _ in 0..17 {
        text.push_str("? ");
    }
    text.push_str("AA BB");
    let sig = parse_signature(&text).unwrap();
    let mut data = vec![0u8; 160];
    data[65] = 0xAA;
    data[66] = 0xBB;
    let x16 = |mode: ScanMode| find_pattern_internal(&data, 0, &sig, ScanAlignment::X16, ScanHint::none(), mode).get();
    assert_eq!(x16(ScanMode::Sse), Some(48));
    assert_eq!(x16(ScanMode::Neon), Some(48));
    assert_eq!(x16(ScanMode::Avx2), None);
    assert_eq!(x16(ScanMode::Single), Some(48));
}

#[test]
fn repeated_scans_in_each_mode() {
    let sig = parse_signature("AA BB").unwrap();
    let mut data = vec![0u8; 128];
    for at in [3usize, 16, 40, 64, 120] {
        data[at] = 0xAA;
        data[at + 1] = 0xBB;
    }
    for mode in [ScanMode::Single, ScanMode::Sse, ScanMode::Avx2, ScanMode::Avx512, ScanMode::Neon] {
        let ctx = ScanContext::new(&sig, ScanAlignment::X1, ScanHint::none(), mode);
        assert_eq!(ctx.find_all(&data, 0x1000), vec![3, 16, 40, 64, 120], "{:?}", mode);
        let mut out = [None; 3];
        assert_eq!(ctx.find_all_bounded(&data, 0x1000, &mut out), 3);
        assert_eq!(out, [Some(3), Some(16), Some(40)]);
    }
    // With 16-byte alignment the SSE blocks (from address 0x1000) keep only
    // 16-byte starts; the bytes past the last block are scanned one by one.
    let ctx = ScanContext::new(&sig, ScanAlignment::X16, ScanHint::none(), ScanMode::Sse);
    assert_eq!(ctx.find_all(&data, 0x1000), vec![16, 64, 120]);
    let ctx = ScanContext::new(&sig, ScanAlignment::X16, ScanHint::none(), ScanMode::Single);
    assert_eq!(ctx.find_all(&data, 0x1000), vec![3, 40, 64, 120]);
}

#[test]
fn parallel_chunks_find_the_first_match() {
    let sig = parse_signature("DE AD ? EF").unwrap();
    let len = 2 * 1024 * 1024 + 5;
    let ctx = ScanContext::new(&sig, ScanAlignment::X1, ScanHint::none(), ScanMode::Sse);
    for &at in &[3usize, 524_287, 524_286, 1_048_574, 2 * 1024 * 1024 - 10] {
        let mut data = vec![0u8; len];
        data[at] = 0xDE;
        data[at + 1] = 0xAD;
        data[at + 3] = 0xEF;
        // A later match too.
        data[len - 4] = 0xDE;
        data[len - 3] = 0xAD;
        data[len - 1] = 0xEF;
        let plan = hat::scanner::parallel_plan(len, sig.len(), 4).unwrap();
        let results: Vec<ConstScanResult> = plan.iter().map(|&(b, e)| ctx.scan_range(&data, 0x10_0000, b, e)).collect();
        let whole = find_pattern(&data, &sig, ScanAlignment::X1, ScanHint::none());
        assert_eq!(hat::scanner::first_found(&results).get(), whole.get());
        assert_eq!(whole.get(), Some(at));
    }
}

/// The aligned exhaustive scans, run through each vector mode over data
/// that starts at an address divisible by 16 (address 0).
fn run_exhaustive_x16_in_mode(mode: ScanMode) {
    for sig_size in [1usize, 3, 8, 16, 32, 64] {
        let sig_data: Vec<u8> = (1..=sig_size).map(|i| (i & 0xFF) as u8).collect();
        let sig: Vec<SignatureElement> = sig_data.iter().map(|b| SignatureElement::from_value(*b)).collect();
        let mut wild_data = sig_data.clone();
        wild_data[0] = 0x00;
        let mut wild_sig = sig.clone();
        wild_sig[0] = SignatureElement::wildcard();
        if sig_size >= 2 {
            wild_sig[1] = SignatureElement::from_value_mask(sig_data[1], 0xF0);
        }
        for buf_size in sig_size..=256usize {
            for offset in (0..=(buf_size - sig_size)).step_by(16) {
                let mut data = vec![0u8; buf_size];
                data[offset..offset + sig_size].copy_from_slice(&sig_data);
                let result = find_pattern_internal(&data, 0, &sig, ScanAlignment::X16, ScanHint::none(), mode);
                assert_eq!(result.get(), Some(offset), "{:?} sig_size={} buf_size={} offset={}", mode, sig_size, buf_size, offset);
                if sig_size >= 2 {
                    let mut data = vec![0u8; buf_size];
                    data[offset..offset + sig_size].copy_from_slice(&wild_data);
                    let result = find_pattern_internal(&data, 0, &wild_sig, ScanAlignment::X16, ScanHint::none(), mode);
                    assert_eq!(result.get(), Some(offset), "wildcard {:?} sig_size={} buf_size={} offset={}", mode, sig_size, buf_size, offset);
                }
            }
        }
    }
}

#[test]
fn exhaustive_x16_sse() {
    run_exhaustive_x16_in_mode(ScanMode::Sse);
}

#[test]
fn exhaustive_x16_avx2() {
    run_exhaustive_x16_in_mode(ScanMode::Avx2);
}

#[test]
fn exhaustive_x16_avx512() {
    run_exhaustive_x16_in_mode(ScanMode::Avx512);
}

#[test]
fn exhaustive_x16_neon() {
    run_exhaustive_x16_in_mode(ScanMode::Neon);
}

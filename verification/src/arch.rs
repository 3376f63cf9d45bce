//! The vector scanners.  Each compares a block of bytes with the anchor
//! byte of the signature at once and gets one lane per byte position (a
//! bit, or four bits on NEON); the lanes that pass the filters are checked
//! in full, lowest first.  The blocks start at aligned addresses, so the
//! bytes before the first block and after the last are scanned one by one.
//! With 16-byte alignment only the lanes whose distance from the anchor's
//! lane is a multiple of 16 may start a match, as the alignment masks
//! select them.  The comparisons are written here lane by lane.
use vstd::prelude::*;
use crate::signature::SignatureElement;
use crate::scanner::spec_matches_at;
use crate::scanner::spec_full_pair;
use crate::scanner::matches_full;
use crate::scanner::spec_first_match;
use crate::scanner::spec_first_match_in;
use crate::scanner::spec_opt_int;
use crate::scanner::lemma_first_match_facts;
use crate::scanner::lemma_first_match_is;
use crate::scanner::lemma_first_match_none;
use crate::scanner::lemma_matches_at_take;
use crate::scanner::scan_single_raw;
use crate::scanner::ScanAlignment;
use crate::scanner::ScanContext;
use crate::result::ConstScanResult;

verus! {

/// Bit `k` of `m` is set.
pub open spec fn spec_bit64(m: u64, k: u64) -> bool {
    (m >> k) & 1 == 1
}

proof fn lemma_or_bit64(m: u64, i: u64, k: u64)
    requires
        i < 64,
        k < 64,
    ensures
        spec_bit64(m | (1u64 << i), k) == (spec_bit64(m, k) || k == i),
        !spec_bit64(0, k),
{
    assert(((m | (1u64 << i)) >> k) & 1 == 1 <==> ((m >> k) & 1 == 1 || k == i)) by (bit_vector)
        requires
            i < 64,
            k < 64,
    ;
    assert((0u64 >> k) & 1 == 0) by (bit_vector);
}

/// The positions of a `width`-bit mask at `i0`, `i0 + 16`, `i0 + 32`, ...
pub open spec fn spec_aligned_position(k: u64, i0: u64) -> bool {
    k >= i0 && (k - i0) % 16 == 0
}

/// The mask of one alignment lane over `width` positions, built from
/// position `anchor % width` in steps of 16.
pub fn align_mask(anchor_index: usize, width: u64) -> (r: u64)
    requires
        width == 16 || width == 32 || width == 64,
    ensures
        forall|k: u64| k < 64 ==> (spec_bit64(r, k) <==> (k < width && spec_aligned_position(k, (anchor_index % (width as usize)) as u64))),
        width < 64 ==> r < (1u64 << width),
{
    let i0 = (anchor_index % (width as usize)) as u64;
    let mut mask: u64 = 0;
    let mut i: u64 = i0;
    assert(0u64 < (1u64 << 16u64) && 0u64 < (1u64 << 32u64)) by (bit_vector);
    proof {
        assert forall|k: u64| k < 64 implies !spec_bit64(0, k) by {
            lemma_or_bit64(0, 0, k);
        }
    }
    while i < width
        invariant
            width == 16 || width == 32 || width == 64,
            i0 < width,
            i0 <= i,
            i < width + 16,
            (i - i0) % 16 == 0,
            forall|k: u64| k < 64 ==> (spec_bit64(mask, k) <==> (k < i && spec_aligned_position(k, i0))),
            width < 64 ==> mask < (1u64 << width),
        decreases width + 16 - i,
    {
        let ghost old_mask = mask;
        proof {
            if width < 64 {
                assert((old_mask | (1u64 << i)) < (1u64 << width)) by (bit_vector)
                    requires
                        old_mask < (1u64 << width),
                        i < width,
                        width < 64,
                ;
            }
        }
        mask = mask | (1u64 << i);
        assert forall|k: u64| k < 64 implies (spec_bit64(mask, k) <==> (k < i + 16 && spec_aligned_position(k, i0))) by {
            lemma_or_bit64(old_mask, i, k);
        }
        i = i + 16;
    }
    mask
}

/// The alignment mask for a 16-byte block (SSE): the bit of position
/// `anchor_index % 16`.
pub fn create_align_mask_16(anchor_index: usize) -> (r: u16)
    ensures
        forall|k: u64| k < 64 ==> (#[trigger] spec_bit64(r as u64, k) <==> (k < 16 && spec_aligned_position(k, (anchor_index % 16) as u64))),
{
    let m = align_mask(anchor_index, 16);
    assert((1u64 << 16u64) == 0x10000) by (bit_vector);
    m as u16
}

/// The alignment mask for a 32-byte block (AVX2): the bits of positions
/// `anchor_index % 32` and 16 past it, below 32.
pub fn create_align_mask_32(anchor_index: usize) -> (r: u32)
    ensures
        forall|k: u64| k < 64 ==> (#[trigger] spec_bit64(r as u64, k) <==> (k < 32 && spec_aligned_position(k, (anchor_index % 32) as u64))),
{
    let m = align_mask(anchor_index, 32);
    assert((1u64 << 32u64) == 0x1_0000_0000) by (bit_vector);
    m as u32
}

/// The alignment mask for a 64-byte block (AVX-512): the bits of positions
/// `anchor_index % 64`, 16, 32 and 48 past it, below 64.
pub fn create_align_mask_64(anchor_index: usize) -> (r: u64)
    ensures
        forall|k: u64| k < 64 ==> (#[trigger] spec_bit64(r, k) <==> (k < 64 && spec_aligned_position(k, (anchor_index % 64) as u64))),
{
    align_mask(anchor_index, 64)
}

/// The alignment mask for a NEON block, four bits per byte position: the
/// nibble of position `anchor_index % 16`.
pub fn create_align_mask_neon(anchor_index: usize) -> (r: u64)
    ensures
        r == 0xFu64 << (((anchor_index % 16) * 4) as u64),
{
    let mut mask: u64 = 0;
    let mut i: usize = anchor_index % 16;
    let ghost i0 = i;
    let mut steps: usize = 0;
    while i < 16
        invariant
            i0 == anchor_index % 16,
            i == i0 + 16 * steps,
            i0 < 16,
            steps <= 1,
            steps == 0 ==> mask == 0,
            steps == 1 ==> mask == 0xFu64 << ((i0 * 4) as u64),
        decreases 32 - i,
    {
        assert(i * 4 < 64);
        let shift = (i * 4) as u64;
        assert(0u64 | (0xFu64 << shift) == 0xFu64 << shift) by (bit_vector);
        mask = mask | (0xFu64 << shift);
        i = i + 16;
        steps = steps + 1;
    }
    mask
}

/// Lane `k` of a comparison mask is set (all its bits are one).  A lane is
/// one bit wide, or four bits wide where `nibbles` (NEON narrows its
/// comparison result to four bits per byte).
pub open spec fn spec_lane_set(m: u64, k: u64, nibbles: bool) -> bool {
    if nibbles {
        (m >> (k << 2u64)) & 0xF == 0xF
    } else {
        (m >> k) & 1 == 1
    }
}

/// Lane `k` of a comparison mask is clear (all its bits are zero).
pub open spec fn spec_lane_clear(m: u64, k: u64, nibbles: bool) -> bool {
    if nibbles {
        (m >> (k << 2u64)) & 0xF == 0
    } else {
        (m >> k) & 1 == 0
    }
}

/// The number of lanes in a 64-bit mask.
pub open spec fn spec_lanes(nibbles: bool) -> u64 {
    if nibbles {
        16
    } else {
        64
    }
}

/// The mask whose lane `k` alone is set.
pub open spec fn spec_lane_ones(k: u64, nibbles: bool) -> u64 {
    if nibbles {
        0xFu64 << (k << 2u64)
    } else {
        1u64 << k
    }
}

/// The lowest bit of lane `k`.
pub open spec fn spec_lane_shift(k: u64, nibbles: bool) -> u64 {
    if nibbles {
        k << 2u64
    } else {
        k
    }
}

/// The lane that bit `t` lies in.
pub open spec fn spec_lane_of(t: u64, nibbles: bool) -> u64 {
    if nibbles {
        t >> 2u64
    } else {
        t
    }
}

/// Setting, clearing and combining lanes.
proof fn lemma_lanes(a: u64, b: u64, k: u64, l: u64, nibbles: bool)
    by (bit_vector)
    requires
        k < spec_lanes(nibbles),
        l < spec_lanes(nibbles),
    ensures
        spec_lane_set(a | spec_lane_ones(k, nibbles), l, nibbles) == (spec_lane_set(a, l, nibbles) || l == k),
        l != k ==> spec_lane_clear(a | spec_lane_ones(k, nibbles), l, nibbles) == spec_lane_clear(a, l, nibbles),
        spec_lane_set(a, k, nibbles) ==> spec_lane_clear(a ^ spec_lane_ones(k, nibbles), k, nibbles),
        l != k ==> spec_lane_set(a ^ spec_lane_ones(k, nibbles), l, nibbles) == spec_lane_set(a, l, nibbles),
        l != k ==> spec_lane_clear(a ^ spec_lane_ones(k, nibbles), l, nibbles) == spec_lane_clear(a, l, nibbles),
        spec_lane_set(a & b, l, nibbles) == (spec_lane_set(a, l, nibbles) && spec_lane_set(b, l, nibbles)),
        (spec_lane_clear(a, l, nibbles) || spec_lane_clear(b, l, nibbles)) ==> spec_lane_clear(a & b, l, nibbles),
        !spec_lane_set(0, l, nibbles),
        spec_lane_clear(0, l, nibbles),
        spec_lane_set(spec_lane_ones(k, nibbles), l, nibbles) == (l == k),
        l != k ==> spec_lane_clear(spec_lane_ones(k, nibbles), l, nibbles),
        spec_lane_set(a, k, nibbles) ==> (a ^ spec_lane_ones(k, nibbles)) < a,
{
}

/// Shifting a mask down by one lane.
proof fn lemma_lane_shift_down(a: u64, l: u64, nibbles: bool)
    by (bit_vector)
    requires
        l < spec_lanes(nibbles),
    ensures
        l + 1 < spec_lanes(nibbles) ==> spec_lane_set(a >> spec_lane_shift(1, nibbles), l, nibbles) == spec_lane_set(a, (l + 1) as u64, nibbles),
        l + 1 < spec_lanes(nibbles) ==> spec_lane_clear(a >> spec_lane_shift(1, nibbles), l, nibbles) == spec_lane_clear(a, (l + 1) as u64, nibbles),
        l + 1 == spec_lanes(nibbles) ==> spec_lane_clear(a >> spec_lane_shift(1, nibbles), l, nibbles),
{
}

/// How the lowest set bit of a mask relates to its lanes.
proof fn lemma_lane_bits(a: u64, t: u64, l: u64, nibbles: bool)
    by (bit_vector)
    requires
        t < 64,
        l < spec_lanes(nibbles),
    ensures
        (a >> t) & 1 == 1 ==> !spec_lane_clear(a, spec_lane_of(t, nibbles), nibbles),
        spec_lane_set(a, l, nibbles) ==> (a >> spec_lane_shift(l, nibbles)) & 1 == 1,
        spec_lane_shift(spec_lane_of(t, nibbles), nibbles) <= t,
        spec_lane_of(t, nibbles) < spec_lanes(nibbles),
        l < spec_lane_of(t, nibbles) ==> spec_lane_shift(l, nibbles) < t,
        spec_lane_shift(l, nibbles) < 64,
        spec_lane_of(spec_lane_shift(l, nibbles), nibbles) == l,
        !nibbles ==> (spec_lane_set(a, l, nibbles) == spec_bit64(a, l)),
        !nibbles ==> (spec_lane_set(a, l, nibbles) || spec_lane_clear(a, l, nibbles)),
        l < 16 ==> ((l * 4) as u64 == l << 2u64),
        spec_lane_ones(spec_lane_of(t, nibbles), nibbles) == (if nibbles {
            0xFu64 << spec_lane_shift(spec_lane_of(t, nibbles), nibbles)
        } else {
            1u64 << t
        }),
{
}


/// Every bit of a byte lies under a full mask.
pub(crate) proof fn lemma_full_byte_mask(b: u8)
    by (bit_vector)
    ensures
        b & 0xFF == b,
{
}

/// The comparison mask of a block: lane `k` is set where `data[blk + k]`
/// equals `value`, and clear elsewhere.
fn compare_mask(data: &[u8], blk: usize, width: usize, value: u8, nibbles: bool) -> (r: u64)
    requires
        blk + width <= data@.len(),
        width == 16 || width == 32 || width == 64,
        nibbles ==> width == 16,
    ensures
        forall|k: u64|
            k < width ==> (#[trigger] spec_lane_set(r, k, nibbles) == (data@[blk + k] == value)) && (
            spec_lane_set(r, k, nibbles) || spec_lane_clear(r, k, nibbles)),
        forall|k: u64| width <= k < spec_lanes(nibbles) ==> #[trigger] spec_lane_clear(r, k, nibbles),
{
    let n = data.len();
    let mut r: u64 = 0;
    let mut k: usize = 0;
    proof {
        assert forall|l: u64| l < spec_lanes(nibbles) implies #[trigger] spec_lane_clear(r, l, nibbles) by {
            lemma_lanes(0, 0, 0, l, nibbles);
        }
    }
    while k < width
        invariant
            n == data@.len(),
            blk + width <= data@.len(),
            width == 16 || width == 32 || width == 64,
            nibbles ==> width == 16,
            0 <= k <= width,
            forall|l: u64|
                l < k ==> (#[trigger] spec_lane_set(r, l, nibbles) == (data@[blk + l] == value)) && (
                spec_lane_set(r, l, nibbles) || spec_lane_clear(r, l, nibbles)),
            forall|l: u64| k <= l < spec_lanes(nibbles) ==> #[trigger] spec_lane_clear(r, l, nibbles),
        decreases width - k,
    {
        if data[blk + k] == value {
            let kk = k as u64;
            proof {
                lemma_lane_bits(0, 0, kk, nibbles);
            }
            let ones = if nibbles {
                0xFu64 << (kk << 2u64)
            } else {
                1u64 << kk
            };
            assert(ones == spec_lane_ones(kk, nibbles));
            let ghost old_r = r;
            r = r | ones;
            proof {
                assert forall|l: u64| l < spec_lanes(nibbles) implies (spec_lane_set(r, l, nibbles) == (
                spec_lane_set(old_r, l, nibbles) || l == kk)) && (l != kk ==> spec_lane_clear(r, l, nibbles)
                    == spec_lane_clear(old_r, l, nibbles)) by {
                    lemma_lanes(old_r, 0, kk, l, nibbles);
                }
            }
        } else {
            proof {
                let kk = k as u64;
                assert(!spec_lane_set(r, kk, nibbles)) by {
                    lemma_lanes(r, 0, kk, kk, nibbles);
                    assert(spec_lane_clear(r, kk, nibbles));
                    if nibbles {
                        assert((r >> (kk << 2u64)) & 0xF == 0);
                    } else {
                        assert((r >> kk) & 1 == 0);
                    }
                }
            }
        }
        k = k + 1;
    }
    r
}


/// A match whose anchor byte sits at lane `k` of a block passes the
/// alignment filter: with 16-byte alignment only the lanes `anchor % width`,
/// 16 past it, 32 past it, ... are kept.
pub open spec fn spec_lane_accepted(k: int, anchor: int, width: int, x16: bool) -> bool {
    !x16 || (k >= anchor % width && (k - anchor % width) % 16 == 0)
}

/// The lanes of `m` below `width` are each set or clear, those above clear.
spec fn spec_mask_wf(m: u64, width: u64, nibbles: bool) -> bool {
    &&& forall|l: u64| l < width ==> #[trigger] spec_lane_set(m, l, nibbles) || spec_lane_clear(m, l, nibbles)
    &&& forall|l: u64| width <= l < spec_lanes(nibbles) ==> #[trigger] spec_lane_clear(m, l, nibbles)
}

/// Scans one block of `width` bytes at `blk`: the candidates are the lanes
/// whose byte equals the anchor byte (and whose next byte equals the byte
/// after the anchor, with a pair), filtered by alignment; each is checked in
/// full, lowest lane first.  The result is the lane of the first accepted
/// match, whose start is `blk + lane - anchor`.
#[verifier::rlimit(30)]
fn scan_block(
    data: &[u8],
    sig: &[SignatureElement],
    blk: usize,
    width: usize,
    anchor: usize,
    use_pair: bool,
    x16: bool,
    nibbles: bool,
) -> (r: Option<usize>)
    requires
        anchor < sig@.len(),
        sig@[anchor as int].spec_is_all(),
        use_pair ==> spec_full_pair(sig@, anchor as int),
        anchor <= blk,
        blk + width + (if sig@.len() <= width { width as int } else { sig@.len() as int }) <= data@.len(),
        width == 16 || width == 32 || width == 64,
        nibbles ==> width == 16,
    ensures
        match r {
            Some(k) => k < width && spec_lane_accepted(k as int, anchor as int, width as int, x16)
                && spec_matches_at(data@, sig@, blk + k - anchor) && forall|l: int|
                0 <= l < k && spec_lane_accepted(l, anchor as int, width as int, x16) ==> !spec_matches_at(
                data@,
                sig@,
                blk + l - anchor,
            ),
            None => forall|l: int|
                0 <= l < width && spec_lane_accepted(l, anchor as int, width as int, x16) ==> !spec_matches_at(
                data@,
                sig@,
                blk + l - anchor,
            ),
        },
{
    let w = width as u64;
    let first = sig[anchor].value();
    let mut mask = compare_mask(data, blk, width, first, nibbles);
    proof {
        assert forall|l: u64| l < width && spec_matches_at(data@, sig@, blk + l - anchor) implies #[trigger] spec_lane_set(
            mask,
            l,
            nibbles,
        ) by {
            let b = data@[blk + l];
            assert(sig@[anchor as int].spec_matches(data@[(blk + l - anchor) + anchor]));
            lemma_full_byte_mask(b);
        }
        assert(spec_mask_wf(mask, w, nibbles));
    }
    if use_pair {
        let second = sig[anchor + 1].value();
        let mask2 = compare_mask(data, blk, width, second, nibbles);
        let w1 = w - 1;
        proof {
            lemma_lane_bits(0, 0, 1, nibbles);
            lemma_lane_bits(0, 0, w1, nibbles);
        }
        let lb: u64 = if nibbles {
            1u64 << 2u64
        } else {
            1u64
        };
        let top = if nibbles {
            0xFu64 << (w1 << 2u64)
        } else {
            1u64 << w1
        };
        let shifted = mask2 >> lb;
        let filter = shifted | top;
        let ghost old_mask = mask;
        mask = mask & filter;
        proof {
            assert(lb == spec_lane_shift(1, nibbles));
            assert(top == spec_lane_ones(w1, nibbles));
            assert forall|l: u64| l < w implies (#[trigger] spec_lane_set(mask, l, nibbles)
                == (spec_lane_set(old_mask, l, nibbles) && (l == w1 || spec_lane_set(mask2, (l + 1) as u64, nibbles))))
                && (spec_lane_set(mask, l, nibbles) || spec_lane_clear(mask, l, nibbles)) by {
                lemma_lane_shift_down(mask2, l, nibbles);
                lemma_lanes(shifted, 0, w1, l, nibbles);
                lemma_lanes(old_mask, filter, 0, l, nibbles);
                if l + 1 < w {
                    assert(spec_lane_set(mask2, (l + 1) as u64, nibbles) || spec_lane_clear(mask2, (l + 1) as u64, nibbles));
                }
            }
            assert forall|l: u64| w <= l < spec_lanes(nibbles) implies #[trigger] spec_lane_clear(mask, l, nibbles) by {
                lemma_lanes(old_mask, filter, 0, l, nibbles);
            }
            assert(spec_mask_wf(mask, w, nibbles));
            assert forall|l: u64| l < width && spec_matches_at(data@, sig@, blk + l - anchor) implies #[trigger] spec_lane_set(
                mask,
                l,
                nibbles,
            ) by {
                assert(spec_lane_set(old_mask, l, nibbles));
                if l + 1 < width {
                    let b = data@[blk + l + 1];
                    assert(sig@[anchor + 1].spec_matches(data@[(blk + l - anchor) + (anchor + 1)]));
                    lemma_full_byte_mask(b);
                    assert(data@[blk + ((l + 1) as u64)] == second);
                    assert(spec_lane_set(mask2, (l + 1) as u64, nibbles));
                }
            }
        }
    }
    if x16 {
        let align = if nibbles {
            create_align_mask_neon(anchor)
        } else if width == 16 {
            create_align_mask_16(anchor) as u64
        } else if width == 32 {
            create_align_mask_32(anchor) as u64
        } else {
            create_align_mask_64(anchor)
        };
        let ghost old_mask = mask;
        mask = mask & align;
        proof {
            let a16 = (anchor % 16) as u64;
            if nibbles {
                lemma_lane_bits(0, 0, a16, nibbles);
                assert(align == spec_lane_ones(a16, nibbles));
            }
            assert forall|l: u64| l < w implies (#[trigger] spec_lane_set(mask, l, nibbles) == (spec_lane_set(old_mask, l, nibbles)
                && spec_lane_accepted(l as int, anchor as int, width as int, x16))) && (spec_lane_set(mask, l, nibbles) || spec_lane_clear(mask, l, nibbles)) by {
                lemma_lanes(old_mask, align, a16, l, nibbles);
                lemma_lane_bits(align, 0, l, nibbles);
                if !nibbles {
                    assert(spec_bit64(align, l) <==> (l < w && spec_aligned_position(l, (anchor % width) as u64)));
                }
            }
            assert forall|l: u64| w <= l < spec_lanes(nibbles) implies #[trigger] spec_lane_clear(mask, l, nibbles) by {
                lemma_lanes(old_mask, align, a16, l, nibbles);
            }
            assert(spec_mask_wf(mask, w, nibbles));
            assert forall|l: u64| l < width && spec_lane_accepted(l as int, anchor as int, width as int, x16) && spec_matches_at(
                data@,
                sig@,
                blk + l - anchor,
            ) implies #[trigger] spec_lane_set(mask, l, nibbles) by {
                assert(spec_lane_set(old_mask, l, nibbles));
            }
        }
    }
    assert(spec_mask_wf(mask, w, nibbles));
    assert forall|l: u64| l < w && #[trigger] spec_lane_set(mask, l, nibbles) implies spec_lane_accepted(l as int, anchor as int, width as int, x16) by {
    }
    let n = data.len();
    while mask != 0
        invariant
            n == data@.len(),
            anchor < sig@.len(),
            blk + width + (if sig@.len() <= width { width as int } else { sig@.len() as int }) <= data@.len(),
            anchor <= blk,
            w == width,
            width == 16 || width == 32 || width == 64,
            nibbles ==> width == 16,
            spec_mask_wf(mask, w, nibbles),
            forall|l: u64| l < w && #[trigger] spec_lane_set(mask, l, nibbles) ==> spec_lane_accepted(l as int, anchor as int, width as int, x16),
            forall|l: u64| l < width && spec_lane_accepted(l as int, anchor as int, width as int, x16) && spec_matches_at(
                data@,
                sig@,
                blk + l - anchor,
            ) ==> #[trigger] spec_lane_set(mask, l, nibbles),
        decreases mask,
    {
        let t = mask.trailing_zeros();
        let t64 = t as u64;
        proof {
            vstd::std_specs::bits::axiom_u64_trailing_zeros(mask);
        }
        let k64 = if nibbles {
            t64 >> 2u64
        } else {
            t64
        };
        proof {
            lemma_lane_bits(mask, t64, 0, nibbles);
            assert(k64 == spec_lane_of(t64, nibbles));
            assert(!spec_lane_clear(mask, k64, nibbles));
            assert(k64 < w);
            assert(spec_lane_set(mask, k64, nibbles));
            lemma_lane_bits(mask, t64, k64, nibbles);
            assert(spec_lane_shift(k64, nibbles) == t64);
            assert forall|l: u64| l < k64 implies !#[trigger] spec_lane_set(mask, l, nibbles) by {
                lemma_lane_bits(mask, t64, l, nibbles);
            }
        }
        let k = k64 as usize;
        let p = blk + k - anchor;
        if matches_full(data, p, sig) {
            proof {
                assert forall|l: int| 0 <= l < k && spec_lane_accepted(l, anchor as int, width as int, x16) implies !spec_matches_at(
                    data@,
                    sig@,
                    blk + l - anchor,
                ) by {
                    assert(!spec_lane_set(mask, l as u64, nibbles));
                }
            }
            return Some(k);
        }
        let ones = if nibbles {
            0xFu64 << t64
        } else {
            1u64 << t64
        };
        let ghost old_mask = mask;
        mask = mask ^ ones;
        proof {
            assert(ones == spec_lane_ones(k64, nibbles));
            assert forall|l: u64| l < spec_lanes(nibbles) implies (l != k64 ==> (#[trigger] spec_lane_set(mask, l, nibbles) == spec_lane_set(old_mask, l, nibbles)
                && spec_lane_clear(mask, l, nibbles) == spec_lane_clear(old_mask, l, nibbles))) && (l == k64 ==> spec_lane_clear(mask, l, nibbles)) by {
                lemma_lanes(old_mask, 0, k64, l, nibbles);
            }
            lemma_lanes(old_mask, 0, k64, k64, nibbles);
            assert forall|l: u64| l < w implies #[trigger] spec_lane_set(mask, l, nibbles) || spec_lane_clear(mask, l, nibbles) by {
                lemma_lanes(old_mask, 0, k64, l, nibbles);
            }
            assert forall|l: u64| w <= l < spec_lanes(nibbles) implies #[trigger] spec_lane_clear(mask, l, nibbles) by {
                lemma_lanes(old_mask, 0, k64, l, nibbles);
            }
        }
    }
    proof {
        assert forall|l: u64| l < spec_lanes(nibbles) implies !#[trigger] spec_lane_set(mask, l, nibbles) by {
            lemma_lanes(0, 0, 0, l, nibbles);
        }
        assert forall|l: int| 0 <= l < width && spec_lane_accepted(l, anchor as int, width as int, x16) implies !spec_matches_at(
            data@,
            sig@,
            blk + l - anchor,
        ) by {
            assert(!spec_lane_set(mask, l as u64, nibbles));
        }
    }
    None
}


/// The offset from `data[0]` of the first vector block: the first offset
/// at or after `anchor` whose address `base + offset` is a multiple of
/// `width`.
pub open spec fn spec_block_origin(base: int, anchor: int, width: int) -> int {
    let rem = (base + anchor) % width;
    if rem == 0 {
        anchor
    } else {
        anchor + width - rem
    }
}

/// The first offset in `[lo, hi)` where `sig` matches and whose anchor
/// byte falls on an accepted lane of the blocks laid out from `origin`.
pub open spec fn spec_first_accepted(
    data: Seq<u8>,
    sig: Seq<SignatureElement>,
    lo: int,
    hi: int,
    anchor: int,
    origin: int,
    width: int,
    x16: bool,
) -> Option<int>
    decreases hi - lo,
{
    if lo >= hi {
        None
    } else if spec_matches_at(data, sig, lo) && spec_lane_accepted((lo + anchor - origin) % width, anchor, width, x16) {
        Some(lo)
    } else {
        spec_first_accepted(data, sig, lo + 1, hi, anchor, origin, width, x16)
    }
}

/// What a vector scanner with blocks of `width` bytes finds in `data`,
/// whose first byte lies at address `base`, comparing the element at
/// `anchor` first.  The blocks start at the first `width`-aligned address
/// at or after the anchor byte of offset 0 and stop where a block and the
/// bytes a full comparison reads after it would pass the end.  Without at
/// least one block the whole of `data` is scanned byte by byte.  Otherwise
/// the offsets up to the first block are scanned byte by byte, then the
/// blocks, where only accepted lanes count, then the rest byte by byte;
/// the first of these three parts that holds a match gives the result.
pub open spec fn spec_block_scan(
    data: Seq<u8>,
    base: int,
    sig: Seq<SignatureElement>,
    anchor: int,
    width: int,
    x16: bool,
) -> Option<int> {
    let n = data.len() as int;
    let m = sig.len() as int;
    let origin = spec_block_origin(base, anchor, width);
    let required = if m <= width {
        width
    } else {
        m
    };
    if origin > n || n - origin < required + width {
        spec_first_match(data, sig, 0)
    } else {
        let end = origin + (n - origin - required) / width * width;
        match spec_first_match_in(data, sig, 0, origin - anchor + m) {
            Some(p) => Some(p),
            None => match spec_first_accepted(data, sig, origin - anchor, end - anchor, anchor, origin, width, x16) {
                Some(p) => Some(p),
                None => spec_first_match(data, sig, end - anchor),
            },
        }
    }
}

/// The first accepted match is an accepted match, and none lies before it.
proof fn lemma_first_accepted_facts(
    data: Seq<u8>,
    sig: Seq<SignatureElement>,
    lo: int,
    hi: int,
    anchor: int,
    origin: int,
    width: int,
    x16: bool,
)
    ensures
        match spec_first_accepted(data, sig, lo, hi, anchor, origin, width, x16) {
            Some(p) => lo <= p < hi && spec_matches_at(data, sig, p) && spec_lane_accepted(
                (p + anchor - origin) % width,
                anchor,
                width,
                x16,
            ) && forall|q: int|
                lo <= q < p ==> !(spec_matches_at(data, sig, q) && spec_lane_accepted(
                    (q + anchor - origin) % width,
                    anchor,
                    width,
                    x16,
                )),
            None => forall|q: int|
                lo <= q < hi ==> !(spec_matches_at(data, sig, q) && spec_lane_accepted(
                    (q + anchor - origin) % width,
                    anchor,
                    width,
                    x16,
                )),
        },
    decreases hi - lo,
{
    if lo < hi {
        lemma_first_accepted_facts(data, sig, lo + 1, hi, anchor, origin, width, x16);
    }
}

/// Offsets without an accepted match can be skipped.
proof fn lemma_first_accepted_skip(
    data: Seq<u8>,
    sig: Seq<SignatureElement>,
    lo: int,
    j: int,
    hi: int,
    anchor: int,
    origin: int,
    width: int,
    x16: bool,
)
    requires
        lo <= j <= hi,
        forall|q: int|
            lo <= q < j ==> !(spec_matches_at(data, sig, q) && spec_lane_accepted(
                (q + anchor - origin) % width,
                anchor,
                width,
                x16,
            )),
    ensures
        spec_first_accepted(data, sig, lo, hi, anchor, origin, width, x16) == spec_first_accepted(
            data,
            sig,
            j,
            hi,
            anchor,
            origin,
            width,
            x16,
        ),
    decreases j - lo,
{
    if lo < j {
        lemma_first_accepted_skip(data, sig, lo + 1, j, hi, anchor, origin, width, x16);
    }
}

/// Without the alignment filter, the block scan finds the first match.
pub proof fn lemma_block_scan_finds_first(
    data: Seq<u8>,
    base: int,
    sig: Seq<SignatureElement>,
    anchor: int,
    width: int,
)
    requires
        0 <= anchor < sig.len(),
        width == 16 || width == 32 || width == 64,
    ensures
        spec_block_scan(data, base, sig, anchor, width, false) == spec_first_match(data, sig, 0),
{
    let n = data.len() as int;
    let m = sig.len() as int;
    let origin = spec_block_origin(base, anchor, width);
    let required = if m <= width {
        width
    } else {
        m
    };
    vstd::arithmetic::div_mod::lemma_mod_bound(base + anchor, width);
    if origin > n || n - origin < required + width {
    } else {
        let end = origin + (n - origin - required) / width * width;
        let pre_end = origin - anchor + m;
        lemma_first_match_facts(data, sig, 0);
        lemma_first_match_facts(data.take(pre_end), sig, 0);
        match spec_first_match_in(data, sig, 0, pre_end) {
            Some(p) => {
                lemma_matches_at_take(data, sig, pre_end, p);
                assert forall|q: int| 0 <= q < p implies !spec_matches_at(data, sig, q) by {
                    lemma_matches_at_take(data, sig, pre_end, q);
                }
                lemma_first_match_is(data, sig, 0, p);
            },
            None => {
                assert forall|q: int| 0 <= q < origin - anchor implies !spec_matches_at(data, sig, q) by {
                    lemma_matches_at_take(data, sig, pre_end, q);
                }
                lemma_first_accepted_facts(data, sig, origin - anchor, end - anchor, anchor, origin, width, false);
                match spec_first_accepted(data, sig, origin - anchor, end - anchor, anchor, origin, width, false) {
                    Some(p) => {
                        lemma_first_match_is(data, sig, 0, p);
                    },
                    None => {
                        lemma_first_match_facts(data, sig, end - anchor);
                        match spec_first_match(data, sig, end - anchor) {
                            Some(p) => {
                                lemma_first_match_is(data, sig, 0, p);
                            },
                            None => {
                                lemma_first_match_none(data, sig, 0);
                            },
                        }
                    },
                }
            },
        }
    }
}


/// The vector scanner with blocks of `width` bytes (16 for SSE and NEON,
/// 32 for AVX2, 64 for AVX-512), on `data` whose first byte lies at address
/// `base`.  It compares the element at the pair index, or at the anchor
/// when there is no pair, across each block at once, filters the
/// candidates by the next element (with a pair) and by alignment (`X16`),
/// and checks each remaining candidate in full.  With `X1` alignment it
/// finds the first match; every offset it reports is a match.
pub fn scan_blocks(data: &[u8], base: usize, ctx: &ScanContext, width: usize, nibbles: bool) -> (r: ConstScanResult)
    requires
        ctx.wf(),
        width == 16 || width == 32 || width == 64,
        nibbles ==> width == 16,
    ensures
        spec_opt_int(r@) == spec_block_scan(
            data@,
            base as int,
            ctx.signature@,
            ctx.spec_compare_index() as int,
            width as int,
            ctx.alignment == ScanAlignment::X16,
        ),
        ctx.alignment == ScanAlignment::X1 ==> spec_opt_int(r@) == spec_first_match(data@, ctx.signature@, 0),
        r@ matches Some(p) ==> spec_matches_at(data@, ctx.signature@, p as int),
{
    let sig = ctx.signature;
    let use_pair = ctx.pair_index.is_some();
    let anchor = match ctx.pair_index {
        Some(i) => i,
        None => ctx.anchor_index,
    };
    let x16 = match ctx.alignment {
        ScanAlignment::X16 => true,
        ScanAlignment::X1 => false,
    };
    proof {
        lemma_block_scan_finds_first(data@, base as int, sig@, anchor as int, width as int);
        lemma_first_match_facts(data@, sig@, 0);
    }
    let r = scan_blocks_inner(data, base, sig, anchor, use_pair, x16, width, nibbles);
    proof {
        if x16 {
            lemma_block_scan_sound(data@, base as int, sig@, anchor as int, width as int);
        }
    }
    r
}

/// What the block scan reports is a match.
pub proof fn lemma_block_scan_sound(
    data: Seq<u8>,
    base: int,
    sig: Seq<SignatureElement>,
    anchor: int,
    width: int,
)
    requires
        0 <= anchor < sig.len(),
        width == 16 || width == 32 || width == 64,
    ensures
        spec_block_scan(data, base, sig, anchor, width, true) matches Some(p) ==> spec_matches_at(data, sig, p),
{
    let n = data.len() as int;
    let m = sig.len() as int;
    let origin = spec_block_origin(base, anchor, width);
    let required = if m <= width {
        width
    } else {
        m
    };
    vstd::arithmetic::div_mod::lemma_mod_bound(base + anchor, width);
    lemma_first_match_facts(data, sig, 0);
    if origin > n || n - origin < required + width {
    } else {
        let end = origin + (n - origin - required) / width * width;
        let pre_end = origin - anchor + m;
        lemma_first_match_facts(data.take(pre_end), sig, 0);
        match spec_first_match_in(data, sig, 0, pre_end) {
            Some(p) => {
                lemma_matches_at_take(data, sig, pre_end, p);
            },
            None => {
                lemma_first_accepted_facts(data, sig, origin - anchor, end - anchor, anchor, origin, width, true);
                lemma_first_match_facts(data, sig, end - anchor);
            },
        }
    }
}

/// The lanes of a block are the offsets `blk + lane - anchor`: an offset
/// `j` lanes into the block is accepted exactly when lane `j` is.
proof fn lemma_block_offsets(
    data: Seq<u8>,
    sig: Seq<SignatureElement>,
    blk: int,
    origin: int,
    anchor: int,
    width: int,
    x16: bool,
    j: int,
)
    requires
        origin <= blk,
        (blk - origin) % width == 0,
        width > 0,
        0 <= j <= width,
        forall|l: int| 0 <= l < j && spec_lane_accepted(l, anchor, width, x16) ==> !spec_matches_at(data, sig, blk + l - anchor),
    ensures
        j < width ==> ((blk + j - anchor) + anchor - origin) % width == j,
        forall|q: int|
            blk - anchor <= q < blk + j - anchor ==> !(spec_matches_at(data, sig, q) && spec_lane_accepted(
                (q + anchor - origin) % width,
                anchor,
                width,
                x16,
            )),
{
    if j < width {
        vstd::arithmetic::div_mod::lemma_add_mod_noop(blk - origin, j, width);
        vstd::arithmetic::div_mod::lemma_small_mod(j as nat, width as nat);
    }
    assert forall|q: int| blk - anchor <= q < blk + j - anchor implies !(spec_matches_at(data, sig, q) && spec_lane_accepted(
        (q + anchor - origin) % width,
        anchor,
        width,
        x16,
    )) by {
        let l = q - blk + anchor;
        vstd::arithmetic::div_mod::lemma_add_mod_noop(blk - origin, l, width);
        vstd::arithmetic::div_mod::lemma_small_mod(l as nat, width as nat);
        assert(q == blk + l - anchor);
    }
}

#[verifier::rlimit(30)]
fn scan_blocks_inner(
    data: &[u8],
    base: usize,
    sig: &[SignatureElement],
    anchor: usize,
    use_pair: bool,
    x16: bool,
    width: usize,
    nibbles: bool,
) -> (r: ConstScanResult)
    requires
        anchor < sig@.len(),
        sig@[anchor as int].spec_is_all(),
        use_pair ==> spec_full_pair(sig@, anchor as int),
        width == 16 || width == 32 || width == 64,
        nibbles ==> width == 16,
    ensures
        spec_opt_int(r@) == spec_block_scan(data@, base as int, sig@, anchor as int, width as int, x16),
{
    let n = data.len();
    let m = sig.len();
    let rem = (base % width + anchor % width) % width;
    proof {
        vstd::arithmetic::div_mod::lemma_add_mod_noop(base as int, anchor as int, width as int);
    }
    let pad = if rem == 0 {
        0
    } else {
        width - rem
    };
    if anchor > n || pad > n - anchor {
        return scan_single_raw(data, 0, sig, anchor);
    }
    let origin = anchor + pad;
    assert(origin == spec_block_origin(base as int, anchor as int, width as int));
    let available = n - origin;
    let required = if m <= width {
        width
    } else {
        m
    };
    if available < required || available - required < width {
        return scan_single_raw(data, 0, sig, anchor);
    }
    let count = (available - required) / width;
    proof {
        vstd::arithmetic::div_mod::lemma_fundamental_div_mod((available - required) as int, width as int);
        vstd::arithmetic::div_mod::lemma_mod_bound((available - required) as int, width as int);
        assert(count * width <= available - required) by (nonlinear_arith)
            requires
                (available - required) as int == width * count + (available - required) as int % (width as int),
                (available - required) as int % (width as int) >= 0,
        ;
    }
    let vend = origin + count * width;
    let pre_end = origin - anchor + m;
    let part = vstd::slice::slice_subrange(data, 0, pre_end);
    assert(part@ =~= data@.take(pre_end as int));
    let pre = scan_single_raw(part, 0, sig, anchor);
    if pre.has_result() {
        return pre;
    }
    let ghost lo = origin - anchor;
    let ghost hi = vend - anchor;
    let mut blk = origin;
    proof {
        vstd::arithmetic::div_mod::lemma_mod_multiples_basic(count as int, width as int);
    }
    while blk < vend
        invariant
            n == data@.len(),
            anchor < sig@.len(),
            sig@[anchor as int].spec_is_all(),
            use_pair ==> spec_full_pair(sig@, anchor as int),
            width == 16 || width == 32 || width == 64,
            nibbles ==> width == 16,
            required == (if sig@.len() <= width { width as int } else { sig@.len() as int }),
            anchor <= origin <= blk <= vend,
            vend + required <= n,
            (vend - blk) % (width as int) == 0,
            (blk - origin) % (width as int) == 0,
            lo == origin - anchor,
            hi == vend - anchor,
            m == sig@.len(),
            origin == spec_block_origin(base as int, anchor as int, width as int),
            !(origin > n || n - origin < required + width),
            count == (n - origin - required) / (width as int),
            vend == origin + count * width,
            pre_end == origin - anchor + m,
            spec_first_match_in(data@, sig@, 0, pre_end as int) is None,
            spec_first_accepted(data@, sig@, lo, hi, anchor as int, origin as int, width as int, x16)
                == spec_first_accepted(data@, sig@, blk - anchor, hi, anchor as int, origin as int, width as int, x16),
        decreases vend - blk,
    {
        assert(blk + width <= vend) by {
            if blk + width > vend {
                vstd::arithmetic::div_mod::lemma_small_mod((vend - blk) as nat, width as nat);
            }
        }
        let found = scan_block(data, sig, blk, width, anchor, use_pair, x16, nibbles);
        match found {
            Some(k) => {
                proof {
                    lemma_block_offsets(data@, sig@, blk as int, origin as int, anchor as int, width as int, x16, k as int);
                    lemma_first_accepted_skip(data@, sig@, blk - anchor, blk + k - anchor, hi, anchor as int, origin as int, width as int, x16);
                    assert(spec_first_accepted(data@, sig@, blk + k - anchor, hi, anchor as int, origin as int, width as int, x16) == Some(blk + k - anchor));
                    assert(spec_first_accepted(data@, sig@, lo, hi, anchor as int, origin as int, width as int, x16) == Some(blk + k - anchor));
                    assert(spec_first_match_in(data@, sig@, 0, pre_end as int) is None);
                }
                return ConstScanResult::new(blk + k - anchor);
            },
            None => {},
        }
        proof {
            lemma_block_offsets(data@, sig@, blk as int, origin as int, anchor as int, width as int, x16, width as int);
            lemma_first_accepted_skip(data@, sig@, blk - anchor, blk + width - anchor, hi, anchor as int, origin as int, width as int, x16);
            vstd::arithmetic::div_mod::lemma_add_mod_noop(blk - origin, width as int, width as int);
            vstd::arithmetic::div_mod::lemma_mod_self_0(width as int);
            vstd::arithmetic::div_mod::lemma_sub_mod_noop(vend - blk, width as int, width as int);
        }
        blk = blk + width;
    }
    scan_single_raw(data, vend - anchor, sig, anchor)
}


/// The SSE 4.1 scanner: blocks of 16 bytes.
pub fn scan_sse(data: &[u8], base: usize, ctx: &ScanContext) -> (r: ConstScanResult)
    requires
        ctx.wf(),
    ensures
        spec_opt_int(r@) == spec_block_scan(
            data@,
            base as int,
            ctx.signature@,
            ctx.spec_compare_index() as int,
            16,
            ctx.alignment == ScanAlignment::X16,
        ),
        ctx.alignment == ScanAlignment::X1 ==> spec_opt_int(r@) == spec_first_match(data@, ctx.signature@, 0),
        r@ matches Some(p) ==> spec_matches_at(data@, ctx.signature@, p as int),
{
    scan_blocks(data, base, ctx, 16, false)
}

/// The AVX2 scanner: blocks of 32 bytes.
pub fn scan_avx2(data: &[u8], base: usize, ctx: &ScanContext) -> (r: ConstScanResult)
    requires
        ctx.wf(),
    ensures
        spec_opt_int(r@) == spec_block_scan(
            data@,
            base as int,
            ctx.signature@,
            ctx.spec_compare_index() as int,
            32,
            ctx.alignment == ScanAlignment::X16,
        ),
        ctx.alignment == ScanAlignment::X1 ==> spec_opt_int(r@) == spec_first_match(data@, ctx.signature@, 0),
        r@ matches Some(p) ==> spec_matches_at(data@, ctx.signature@, p as int),
{
    scan_blocks(data, base, ctx, 32, false)
}

/// The AVX-512 scanner: blocks of 64 bytes.
pub fn scan_avx512(data: &[u8], base: usize, ctx: &ScanContext) -> (r: ConstScanResult)
    requires
        ctx.wf(),
    ensures
        spec_opt_int(r@) == spec_block_scan(
            data@,
            base as int,
            ctx.signature@,
            ctx.spec_compare_index() as int,
            64,
            ctx.alignment == ScanAlignment::X16,
        ),
        ctx.alignment == ScanAlignment::X1 ==> spec_opt_int(r@) == spec_first_match(data@, ctx.signature@, 0),
        r@ matches Some(p) ==> spec_matches_at(data@, ctx.signature@, p as int),
{
    scan_blocks(data, base, ctx, 64, false)
}

/// The NEON scanner: blocks of 16 bytes, four mask bits per byte.
pub fn scan_neon(data: &[u8], base: usize, ctx: &ScanContext) -> (r: ConstScanResult)
    requires
        ctx.wf(),
    ensures
        spec_opt_int(r@) == spec_block_scan(
            data@,
            base as int,
            ctx.signature@,
            ctx.spec_compare_index() as int,
            16,
            ctx.alignment == ScanAlignment::X16,
        ),
        ctx.alignment == ScanAlignment::X1 ==> spec_opt_int(r@) == spec_first_match(data@, ctx.signature@, 0),
        r@ matches Some(p) ==> spec_matches_at(data@, ctx.signature@, p as int),
{
    scan_blocks(data, base, ctx, 16, true)
}

} // verus!

//! Unsigned integers stored in byte buffers, in either byte order.  Values
//! in memory and in the files of the running system are stored in the
//! machine's own order; finding out which that is belongs to the caller,
//! which hands it to these functions as a `ByteOrder`.
use vstd::prelude::*;

verus! {

/// The order of the bytes of a stored integer.
#[derive(Clone, Copy, Debug, PartialEq, Eq, Structural)]
pub enum ByteOrder {
    /// Least significant byte first.
    Little,
    /// Most significant byte first.
    Big,
}

/// The unsigned value of the bytes `b` read in `order`.
pub open spec fn spec_value_in(order: ByteOrder, b: Seq<u8>) -> int {
    match order {
        ByteOrder::Little => spec_le_value(b),
        ByteOrder::Big => spec_be_value(b),
    }
}

/// The big-endian unsigned value of the bytes `b` (most significant byte
/// first).
pub open spec fn spec_be_value(b: Seq<u8>) -> int
    decreases b.len(),
{
    if b.len() == 0 {
        0
    } else {
        spec_be_value(b.drop_last()) * 256 + b.last()
    }
}

/// The little-endian unsigned value of the bytes `b` (least significant
/// byte first).
pub open spec fn spec_le_value(b: Seq<u8>) -> int
    decreases b.len(),
{
    if b.len() == 0 {
        0
    } else {
        b[0] + 256 * spec_le_value(b.drop_first())
    }
}

pub proof fn lemma_le_value_bound(b: Seq<u8>)
    ensures
        0 <= spec_le_value(b),
        b.len() <= 8 ==> spec_le_value(b) < pow256(b.len()),
    decreases b.len(),
{
    if b.len() > 0 {
        lemma_le_value_bound(b.drop_first());
    }
}

/// 256 raised to the power `n`.
pub open spec fn pow256(n: nat) -> int
    decreases n,
{
    if n == 0 {
        1
    } else {
        256 * pow256((n - 1) as nat)
    }
}

/// Reads `width` bytes of `data` from `at` as a little-endian unsigned value.
pub fn read_le(data: &[u8], at: usize, width: usize) -> (r: u64)
    requires
        width <= 8,
        at + width <= data@.len(),
    ensures
        r as int == spec_le_value(data@.subrange(at as int, at + width)),
{
    let _n = data.len();
    let mut value: u64 = 0;
    let mut k: usize = width;
    proof {
        lemma_le_value_bound(data@.subrange(at as int, at + width));
        reveal_with_fuel(pow256, 9);
    }
    while k > 0
        invariant
            width <= 8,
            at + width <= data@.len(),
            data@.len() <= usize::MAX,
            0 <= k <= width,
            value as int == spec_le_value(data@.subrange(at + k, at + width)),
            (value as int) < pow256((width - k) as nat),
            pow256(8) == 0x1_0000_0000_0000_0000,
            pow256((width - k) as nat) * pow256(k as nat) == pow256(width as nat),
            pow256(width as nat) <= pow256(8),
        decreases k,
    {
        let ghost old_k = k;
        k = k - 1;
        let ghost tail = data@.subrange(at + k, at + width);
        assert(tail.drop_first() =~= data@.subrange(at + old_k, at + width));
        assert(tail[0] == data@[at + k]);
        let ghost p = pow256((width - old_k) as nat);
        assert(pow256((width - k) as nat) == 256 * p);
        assert(pow256(old_k as nat) == 256 * pow256(k as nat));
        assert(256 * p * pow256(k as nat) == pow256(width as nat)) by (nonlinear_arith)
            requires
                p * pow256(old_k as nat) == pow256(width as nat),
                pow256(old_k as nat) == 256 * pow256(k as nat),
        ;
        assert(pow256(k as nat) >= 1) by {
            lemma_pow256_pos(k as nat);
        }
        assert(value as int * 256 + 255 < 256 * p) by (nonlinear_arith)
            requires
                value < p,
        ;
        assert(256 * p <= pow256(width as nat)) by (nonlinear_arith)
            requires
                256 * p * pow256(k as nat) == pow256(width as nat),
                pow256(k as nat) >= 1,
                p >= 0,
        ;
        value = value * 256 + data[at + k] as u64;
    }
    value
}

pub proof fn lemma_pow256_pos(n: nat)
    ensures
        pow256(n) >= 1,
    decreases n,
{
    if n > 0 {
        lemma_pow256_pos((n - 1) as nat);
    }
}

pub proof fn lemma_pow256_step(n: nat)
    ensures
        pow256(n + 1) == 256 * pow256(n),
{
    assert((n + 1) as nat - 1 == n);
}

pub proof fn lemma_pow256_mono(a: nat, b: nat)
    requires
        a <= b,
    ensures
        pow256(a) <= pow256(b),
    decreases b - a,
{
    if a < b {
        lemma_pow256_mono(a, (b - 1) as nat);
        lemma_pow256_pos((b - 1) as nat);
        lemma_pow256_step((b - 1) as nat);
    }
}

pub proof fn lemma_be_value_bound(b: Seq<u8>)
    ensures
        0 <= spec_be_value(b) < pow256(b.len()),
    decreases b.len(),
{
    if b.len() > 0 {
        lemma_be_value_bound(b.drop_last());
        lemma_pow256_step((b.len() - 1) as nat);
        let v = spec_be_value(b.drop_last());
        let p = pow256((b.len() - 1) as nat);
        assert(v * 256 + b.last() < 256 * p) by (nonlinear_arith)
            requires
                0 <= v < p,
                0 <= b.last() < 256,
        ;
    }
}

/// A value of at most eight bytes, in either order, fits in 64 bits.
pub proof fn lemma_value_bound(order: ByteOrder, b: Seq<u8>)
    requires
        b.len() <= 8,
    ensures
        0 <= spec_value_in(order, b) < pow256(b.len()),
        pow256(b.len()) <= 0x1_0000_0000_0000_0000,
{
    lemma_le_value_bound(b);
    lemma_be_value_bound(b);
    lemma_pow256_mono(b.len(), 8);
    reveal_with_fuel(pow256, 9);
}

/// Reads `width` bytes of `data` from `at` as a big-endian unsigned value.
pub fn read_be(data: &[u8], at: usize, width: usize) -> (r: u64)
    requires
        width <= 8,
        at + width <= data@.len(),
    ensures
        r as int == spec_be_value(data@.subrange(at as int, at + width)),
{
    let _n = data.len();
    let mut value: u64 = 0;
    let mut k: usize = 0;
    proof {
        assert(data@.subrange(at as int, at as int) =~= Seq::<u8>::empty());
        reveal_with_fuel(pow256, 1);
    }
    while k < width
        invariant
            width <= 8,
            at + width <= data@.len(),
            data@.len() <= usize::MAX,
            0 <= k <= width,
            value as int == spec_be_value(data@.subrange(at as int, at + k)),
            (value as int) < pow256(k as nat),
        decreases width - k,
    {
        let ghost head = data@.subrange(at as int, at + k + 1);
        assert(head.drop_last() =~= data@.subrange(at as int, at + k));
        assert(head.last() == data@[at + k]);
        proof {
            lemma_pow256_step(k as nat);
            lemma_pow256_mono((k + 1) as nat, 8);
            reveal_with_fuel(pow256, 9);
            assert(pow256(8) == 0x1_0000_0000_0000_0000);
            assert(value as int * 256 + 255 < 256 * pow256(k as nat)) by (nonlinear_arith)
                requires
                    (value as int) < pow256(k as nat),
            ;
        }
        value = value * 256 + data[at + k] as u64;
        k = k + 1;
    }
    value
}

/// Reads `width` bytes of `data` from `at` as an unsigned value in `order`.
pub fn read_uint(data: &[u8], at: usize, width: usize, order: ByteOrder) -> (r: u64)
    requires
        width <= 8,
        at + width <= data@.len(),
    ensures
        r as int == spec_value_in(order, data@.subrange(at as int, at + width)),
{
    match order {
        ByteOrder::Little => read_le(data, at, width),
        ByteOrder::Big => read_be(data, at, width),
    }
}

} // verus!

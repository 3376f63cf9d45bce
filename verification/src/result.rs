//! The result of a scan: the offset of a match inside the scanned bytes, or
//! nothing.  Offsets count from the first byte of the slice that was
//! scanned; helpers read the matched bytes back out of that slice, in the
//! byte order they are stored in (the machine's own, for bytes in memory).
use vstd::prelude::*;
use crate::bytes::lemma_value_bound;
use crate::bytes::pow256;
use crate::bytes::read_uint;
use crate::bytes::spec_value_in;
use crate::bytes::ByteOrder;

verus! {

/// The value of a 32-bit two's complement integer whose bits are `u`.
pub open spec fn spec_i32_of(u: int) -> int {
    if u < 0x8000_0000 {
        u
    } else {
        u - 0x1_0000_0000
    }
}

/// Where a scan over mutable bytes matched, as an offset into them.
#[derive(Clone, Copy, Debug, PartialEq, Eq, Structural)]
pub struct ScanResult {
    offset: Option<usize>,
}

/// Where a scan matched, as an offset into the scanned bytes.
#[derive(Clone, Copy, Debug, PartialEq, Eq, Structural)]
pub struct ConstScanResult {
    offset: Option<usize>,
}

impl View for ScanResult {
    type V = Option<usize>;

    closed spec fn view(&self) -> Option<usize> {
        self.offset
    }
}

impl View for ConstScanResult {
    type V = Option<usize>;

    closed spec fn view(&self) -> Option<usize> {
        self.offset
    }
}

impl ScanResult {
    /// A result at `offset`.
    pub fn new(offset: usize) -> (r: Self)
        ensures
            r@ == Some(offset),
    {
        ScanResult { offset: Some(offset) }
    }

    /// The empty result.
    pub fn null() -> (r: Self)
        ensures
            r@ == None::<usize>,
    {
        ScanResult { offset: None }
    }

    pub fn has_result(&self) -> (r: bool)
        ensures
            r == self@.is_some(),
    {
        self.offset.is_some()
    }

    /// The offset of the match, if any.
    pub fn get(&self) -> (r: Option<usize>)
        ensures
            r == self@,
    {
        self.offset
    }

    /// Reads `width` bytes (1, 2, 4 or 8) at `offset` past the match as an
    /// unsigned value stored in `order`.
    pub fn read(&self, data: &[u8], offset: usize, width: usize, order: ByteOrder) -> (r: u64)
        requires
            self@ is Some,
            width == 1 || width == 2 || width == 4 || width == 8,
            self@.unwrap() + offset + width <= data@.len(),
        ensures
            r as int == spec_value_in(order, data@.subrange(self@.unwrap() + offset, self@.unwrap() + offset + width)),
    {
        let _n = data.len();
        let at = self.offset.unwrap() + offset;
        read_uint(data, at, width, order)
    }

    /// Reads the signed 32-bit value stored in `order` at `offset` past the
    /// match.
    pub fn read_i32(&self, data: &[u8], offset: usize, order: ByteOrder) -> (r: i32)
        requires
            self@ is Some,
            self@.unwrap() + offset + 4 <= data@.len(),
        ensures
            r as int == spec_i32_of(spec_value_in(order, data@.subrange(self@.unwrap() + offset, self@.unwrap() + offset + 4))),
    {
        let _n = data.len();
        let at = self.offset.unwrap() + offset;
        let bits = read_uint(data, at, 4, order);
        proof {
            lemma_value_bound(order, data@.subrange(at as int, at + 4));
            reveal_with_fuel(pow256, 5);
        }
        i32_of_bits(bits)
    }

    /// The value of `width` bytes at `offset` past the match divided by
    /// `elem_size`: an index into a table of elements of that size.
    pub fn index(&self, data: &[u8], offset: usize, width: usize, elem_size: usize, order: ByteOrder) -> (r: usize)
        requires
            self@ is Some,
            width == 1 || width == 2 || width == 4 || width == 8,
            self@.unwrap() + offset + width <= data@.len(),
            elem_size > 0,
        ensures
            r == (spec_value_in(order, data@.subrange(self@.unwrap() + offset, self@.unwrap() + offset + width)) as usize) / elem_size,
    {
        let v = self.read(data, offset, width, order);
        (v as usize) / elem_size
    }

    /// The target of a 32-bit displacement stored at `offset` past the
    /// match, relative to the first scanned byte: the displacement counts
    /// from the end of its four bytes, plus `remaining` further bytes of the
    /// instruction.  `None` when there is no match.
    pub fn rel(&self, data: &[u8], offset: usize, remaining: usize, order: ByteOrder) -> (r: Option<i128>)
        requires
            self@ is Some ==> self@.unwrap() + offset + 4 <= data@.len(),
        ensures
            self@ is None ==> r is None,
            self@ is Some ==> r == Some(
                (self@.unwrap() + offset + spec_i32_of(
                    spec_value_in(order, data@.subrange(self@.unwrap() + offset, self@.unwrap() + offset + 4)),
                ) + 4 + remaining) as i128,
            ),
    {
        match self.offset {
            None => None,
            Some(p) => {
                let d = self.read_i32(data, offset, order);
                Some(p as i128 + offset as i128 + d as i128 + 4 + remaining as i128)
            },
        }
    }
}

impl ConstScanResult {
    /// A result at `offset`.
    pub fn new(offset: usize) -> (r: Self)
        ensures
            r@ == Some(offset),
    {
        ConstScanResult { offset: Some(offset) }
    }

    /// The empty result.
    pub fn null() -> (r: Self)
        ensures
            r@ == None::<usize>,
    {
        ConstScanResult { offset: None }
    }

    pub fn has_result(&self) -> (r: bool)
        ensures
            r == self@.is_some(),
    {
        self.offset.is_some()
    }

    /// The offset of the match, if any.
    pub fn get(&self) -> (r: Option<usize>)
        ensures
            r == self@,
    {
        self.offset
    }

    /// Reads `width` bytes (1, 2, 4 or 8) at `offset` past the match as an
    /// unsigned value stored in `order`.
    pub fn read(&self, data: &[u8], offset: usize, width: usize, order: ByteOrder) -> (r: u64)
        requires
            self@ is Some,
            width == 1 || width == 2 || width == 4 || width == 8,
            self@.unwrap() + offset + width <= data@.len(),
        ensures
            r as int == spec_value_in(order, data@.subrange(self@.unwrap() + offset, self@.unwrap() + offset + width)),
    {
        let _n = data.len();
        let at = self.offset.unwrap() + offset;
        read_uint(data, at, width, order)
    }

    /// Reads the signed 32-bit value stored in `order` at `offset` past the
    /// match.
    pub fn read_i32(&self, data: &[u8], offset: usize, order: ByteOrder) -> (r: i32)
        requires
            self@ is Some,
            self@.unwrap() + offset + 4 <= data@.len(),
        ensures
            r as int == spec_i32_of(spec_value_in(order, data@.subrange(self@.unwrap() + offset, self@.unwrap() + offset + 4))),
    {
        let _n = data.len();
        let at = self.offset.unwrap() + offset;
        let bits = read_uint(data, at, 4, order);
        proof {
            lemma_value_bound(order, data@.subrange(at as int, at + 4));
            reveal_with_fuel(pow256, 5);
        }
        i32_of_bits(bits)
    }

    /// The value of `width` bytes at `offset` past the match divided by
    /// `elem_size`: an index into a table of elements of that size.
    pub fn index(&self, data: &[u8], offset: usize, width: usize, elem_size: usize, order: ByteOrder) -> (r: usize)
        requires
            self@ is Some,
            width == 1 || width == 2 || width == 4 || width == 8,
            self@.unwrap() + offset + width <= data@.len(),
            elem_size > 0,
        ensures
            r == (spec_value_in(order, data@.subrange(self@.unwrap() + offset, self@.unwrap() + offset + width)) as usize) / elem_size,
    {
        let v = self.read(data, offset, width, order);
        (v as usize) / elem_size
    }

    /// The target of a 32-bit displacement stored at `offset` past the
    /// match, relative to the first scanned byte: the displacement counts
    /// from the end of its four bytes, plus `remaining` further bytes of the
    /// instruction.  `None` when there is no match.
    pub fn rel(&self, data: &[u8], offset: usize, remaining: usize, order: ByteOrder) -> (r: Option<i128>)
        requires
            self@ is Some ==> self@.unwrap() + offset + 4 <= data@.len(),
        ensures
            self@ is None ==> r is None,
            self@ is Some ==> r == Some(
                (self@.unwrap() + offset + spec_i32_of(
                    spec_value_in(order, data@.subrange(self@.unwrap() + offset, self@.unwrap() + offset + 4)),
                ) + 4 + remaining) as i128,
            ),
    {
        match self.offset {
            None => None,
            Some(p) => {
                let d = self.read_i32(data, offset, order);
                Some(p as i128 + offset as i128 + d as i128 + 4 + remaining as i128)
            },
        }
    }
}

/// The signed value of the low 32 bits of `bits`.
fn i32_of_bits(bits: u64) -> (r: i32)
    requires
        bits < 0x1_0000_0000,
    ensures
        r as int == spec_i32_of(bits as int),
{
    if bits < 0x8000_0000 {
        bits as i32
    } else {
        (bits as i64 - 0x1_0000_0000i64) as i32
    }
}

impl From<ScanResult> for ConstScanResult {
    fn from(result: ScanResult) -> (r: Self) {
        ConstScanResult { offset: result.offset }
    }
}

impl vstd::std_specs::convert::FromSpecImpl<ScanResult> for ConstScanResult {
    open spec fn obeys_from_spec() -> bool {
        true
    }

    open spec fn from_spec(result: ScanResult) -> Self {
        const_result_of(result)
    }
}

/// The read-only result at the same offset.
pub closed spec fn const_result_of(result: ScanResult) -> ConstScanResult {
    ConstScanResult { offset: result.offset }
}

pub proof fn lemma_const_result_of(result: ScanResult)
    ensures
        const_result_of(result)@ == result@,
{
}

} // verus!

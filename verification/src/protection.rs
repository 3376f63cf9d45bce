//! Memory protection flags: a set of read, write and execute rights.
use vstd::prelude::*;

verus! {

/// A set of access rights, one bit each: read (1), write (2), execute (4).
#[derive(Clone, Copy, Debug, PartialEq, Eq, Structural)]
pub struct Protection(u8);

impl Protection {
    /// The bits of the set.
    pub closed spec fn spec_bits(self) -> u8 {
        self.0
    }

    pub closed spec fn spec_from_bits(bits: u8) -> Protection {
        Protection(bits)
    }

    pub proof fn lemma_from_bits(bits: u8)
        ensures
            #[trigger] Self::spec_from_bits(bits).spec_bits() == bits,
    {
    }

    /// A set equals the set of its bits.
    pub proof fn lemma_bits_eq(a: Protection, b: Protection)
        ensures
            a.spec_bits() == b.spec_bits() <==> a == b,
    {
    }

    pub open spec fn spec_read() -> Protection {
        Self::spec_from_bits(1)
    }

    pub open spec fn spec_write() -> Protection {
        Self::spec_from_bits(2)
    }

    pub open spec fn spec_execute() -> Protection {
        Self::spec_from_bits(4)
    }

    /// The rights of either set.
    pub open spec fn spec_union(self, other: Protection) -> Protection {
        Self::spec_from_bits(self.spec_bits() | other.spec_bits())
    }

    /// The rights of both sets.
    pub open spec fn spec_intersection(self, other: Protection) -> Protection {
        Self::spec_from_bits(self.spec_bits() & other.spec_bits())
    }

    /// The rights of exactly one of the sets.
    pub open spec fn spec_difference_sym(self, other: Protection) -> Protection {
        Self::spec_from_bits(self.spec_bits() ^ other.spec_bits())
    }

    /// Every right of `other` is in `self`.
    pub open spec fn spec_contains(self, other: Protection) -> bool {
        self.spec_bits() & other.spec_bits() == other.spec_bits()
    }

    /// The right to read.
    #[verifier::when_used_as_spec(spec_read)]
    pub fn read() -> (r: Protection)
        ensures
            r == Self::spec_read(),
    {
        Protection(1)
    }

    /// The right to write.
    #[verifier::when_used_as_spec(spec_write)]
    pub fn write() -> (r: Protection)
        ensures
            r == Self::spec_write(),
    {
        Protection(2)
    }

    /// The right to execute.
    #[verifier::when_used_as_spec(spec_execute)]
    pub fn execute() -> (r: Protection)
        ensures
            r == Self::spec_execute(),
    {
        Protection(4)
    }

    /// The set without any right.
    pub fn empty() -> (r: Protection)
        ensures
            r.spec_bits() == 0,
    {
        Protection(0)
    }

    /// The set with the given bits.
    pub fn from_bits(bits: u8) -> (r: Protection)
        ensures
            r.spec_bits() == bits,
    {
        Protection(bits)
    }

    /// The bits of the set.
    pub fn bits(self) -> (r: u8)
        ensures
            r == self.spec_bits(),
    {
        self.0
    }

    /// Whether every right of `other` is in `self`.
    pub fn contains(self, other: Protection) -> (r: bool)
        ensures
            r == self.spec_contains(other),
    {
        self.0 & other.0 == other.0
    }
}

impl core::ops::BitOr for Protection {
    type Output = Self;

    fn bitor(self, rhs: Self) -> (r: Self) {
        Protection(self.0 | rhs.0)
    }
}

impl vstd::std_specs::ops::BitOrSpecImpl for Protection {
    open spec fn obeys_bitor_spec() -> bool {
        true
    }

    open spec fn bitor_req(self, rhs: Protection) -> bool {
        true
    }

    open spec fn bitor_spec(self, rhs: Protection) -> Protection {
        self.spec_union(rhs)
    }
}

impl core::ops::BitAnd for Protection {
    type Output = Self;

    fn bitand(self, rhs: Self) -> (r: Self) {
        Protection(self.0 & rhs.0)
    }
}

impl vstd::std_specs::ops::BitAndSpecImpl for Protection {
    open spec fn obeys_bitand_spec() -> bool {
        true
    }

    open spec fn bitand_req(self, rhs: Protection) -> bool {
        true
    }

    open spec fn bitand_spec(self, rhs: Protection) -> Protection {
        self.spec_intersection(rhs)
    }
}

impl core::ops::BitXor for Protection {
    type Output = Self;

    fn bitxor(self, rhs: Self) -> (r: Self) {
        Protection(self.0 ^ rhs.0)
    }
}

impl vstd::std_specs::ops::BitXorSpecImpl for Protection {
    open spec fn obeys_bitxor_spec() -> bool {
        true
    }

    open spec fn bitxor_req(self, rhs: Protection) -> bool {
        true
    }

    open spec fn bitxor_spec(self, rhs: Protection) -> Protection {
        self.spec_difference_sym(rhs)
    }
}

impl core::ops::BitOrAssign for Protection {
    fn bitor_assign(&mut self, rhs: Self)
        ensures
            final(self).spec_bits() == old(self).spec_bits() | rhs.spec_bits(),
    {
        self.0 = self.0 | rhs.0;
    }
}

impl core::ops::BitAndAssign for Protection {
    fn bitand_assign(&mut self, rhs: Self)
        ensures
            final(self).spec_bits() == old(self).spec_bits() & rhs.spec_bits(),
    {
        self.0 = self.0 & rhs.0;
    }
}

impl core::ops::BitXorAssign for Protection {
    fn bitxor_assign(&mut self, rhs: Self)
        ensures
            final(self).spec_bits() == old(self).spec_bits() ^ rhs.spec_bits(),
    {
        self.0 = self.0 ^ rhs.0;
    }
}

/// The union of two sets contains both; the intersection is contained in
/// both; a set contains another exactly when their union is the set; and
/// applying the same exclusive-or twice gives the set back.
pub proof fn lemma_protection_algebra(a: Protection, b: Protection)
    ensures
        a.spec_union(b).spec_contains(a),
        a.spec_union(b).spec_contains(b),
        a.spec_contains(a.spec_intersection(b)),
        b.spec_contains(a.spec_intersection(b)),
        a.spec_contains(b) <==> a.spec_union(b) == a,
        a.spec_difference_sym(b).spec_difference_sym(b) == a,
        a.spec_contains(Protection::spec_from_bits(0)),
{
    let x = a.spec_bits();
    let y = b.spec_bits();
    Protection::lemma_from_bits(x | y);
    Protection::lemma_from_bits(x & y);
    Protection::lemma_from_bits(x ^ y);
    Protection::lemma_from_bits((x ^ y) ^ y);
    Protection::lemma_from_bits(0);
    assert((x | y) & x == x && (x | y) & y == y && x & (x & y) == (x & y) && y & (x & y) == (x & y)
        && (x & y == y <==> (x | y) == x) && (x ^ y) ^ y == x && x & 0 == 0) by (bit_vector);
    Protection::lemma_bits_eq(a.spec_union(b), a);
    Protection::lemma_bits_eq(a.spec_difference_sym(b).spec_difference_sym(b), a);
}

/// Containment is transitive.
pub proof fn lemma_protection_contains_transitive(a: Protection, b: Protection, c: Protection)
    requires
        a.spec_contains(b),
        b.spec_contains(c),
    ensures
        a.spec_contains(c),
{
    let x = a.spec_bits();
    let y = b.spec_bits();
    let z = c.spec_bits();
    assert(x & y == y && y & z == z ==> x & z == z) by (bit_vector);
}

/// The rights built from the bits read 1, write 2 and execute 4, each set
/// as `read`, `write` and `execute` say, hold exactly those rights and no
/// other.
pub proof fn lemma_rights_of(read: bool, write: bool, execute: bool)
    ensures
        ({
            let p = Protection::spec_from_bits(
                ((if read { 1int } else { 0int }) + (if write { 2int } else { 0int }) + (if execute {
                    4int
                } else {
                    0int
                })) as u8,
            );
            &&& p.spec_contains(Protection::spec_read()) == read
            &&& p.spec_contains(Protection::spec_write()) == write
            &&& p.spec_contains(Protection::spec_execute()) == execute
            &&& p.spec_bits() < 8
        }),
{
    let b = ((if read { 1int } else { 0int }) + (if write { 2int } else { 0int }) + (if execute { 4int } else { 0int })) as u8;
    Protection::lemma_from_bits(b);
    Protection::lemma_from_bits(1);
    Protection::lemma_from_bits(2);
    Protection::lemma_from_bits(4);
    assert(forall|x: u8| x < 8 ==> (#[trigger] (x & 1) == 1) == (x % 2 == 1) && ((x & 2) == 2) == ((x / 2) % 2 == 1) && ((x
        & 4) == 4) == (x >= 4)) by (bit_vector);
}

} // verus!

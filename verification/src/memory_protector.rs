//! Changing the rights of a memory range for a while: the page arithmetic,
//! the rights to ask for, the rights found in the memory map, and the
//! bookkeeping that restores the old rights exactly once.  The system calls
//! that change the rights are left to the caller.
use vstd::prelude::*;
use crate::platform::prot_exec;
use crate::platform::prot_read;
use crate::platform::prot_write;
use crate::process::MapEntry;
use crate::protection::Protection;

verus! {

/// The pages that cover `size` bytes at `address`: the first page's
/// address and the length of the covered pages.
pub fn page_span(address: usize, size: usize, page_size: usize) -> (r: (usize, usize))
    requires
        page_size >= 1,
        address + size <= usize::MAX,
        address + size - (address & !((page_size - 1) as usize)) + page_size - 1 <= usize::MAX,
    ensures
        r.0 == address & !((page_size - 1) as usize),
        r.1 == ((address + size - r.0 + page_size - 1) as usize) & !((page_size - 1) as usize),
{
    let mask = !(page_size - 1);
    let page_start = address & mask;
    assert(address & mask <= address) by (bit_vector);
    let mapped_size = (address + size - page_start + (page_size - 1)) & mask;
    (page_start, mapped_size)
}

/// The rights bits of the first map entry that contains `addr`.
pub open spec fn spec_protection_at(entries: Seq<MapEntry>, addr: usize) -> Option<u32>
    decreases entries.len(),
{
    if entries.len() == 0 {
        None
    } else if entries[0].begin <= addr && addr < entries[0].end {
        Some(entries[0].prot)
    } else {
        spec_protection_at(entries.drop_first(), addr)
    }
}

proof fn lemma_protection_at_skip(entries: Seq<MapEntry>, i: int, addr: usize)
    requires
        0 <= i <= entries.len(),
        forall|k: int| 0 <= k < i ==> !(entries[k].begin <= addr && addr < entries[k].end),
    ensures
        spec_protection_at(entries, addr) == spec_protection_at(entries.skip(i), addr),
    decreases i,
{
    if i > 0 {
        lemma_protection_at_skip(entries.drop_first(), i - 1, addr);
        assert(entries.drop_first().skip(i - 1) =~= entries.skip(i));
    } else {
        assert(entries.skip(0) =~= entries);
    }
}

/// The rights the memory map gives the page at `addr`.
pub fn find_protection(entries: &[MapEntry], addr: usize) -> (r: Option<u32>)
    ensures
        r == spec_protection_at(entries@, addr),
{
    let n = entries.len();
    let mut i: usize = 0;
    while i < n
        invariant
            n == entries@.len(),
            0 <= i <= n,
            forall|k: int| 0 <= k < i ==> !(entries@[k].begin <= addr && addr < entries@[k].end),
        decreases n - i,
    {
        let e = entries[i];
        if e.begin <= addr && addr < e.end {
            proof {
                lemma_protection_at_skip(entries@, i as int, addr);
                assert(entries@.skip(i as int)[0] == e);
            }
            return Some(e.prot);
        }
        i = i + 1;
    }
    proof {
        lemma_protection_at_skip(entries@, n as int, addr);
    }
    None
}

/// The protection bits (read 1, write 2, execute 4) that grant `flags`.
pub fn protection_bits(flags: Protection) -> (r: u32)
    ensures
        r == (if flags.spec_contains(Protection::spec_read()) { 1u32 } else { 0u32 }) + (if flags.spec_contains(
            Protection::spec_write(),
        ) {
            2u32
        } else {
            0u32
        }) + (if flags.spec_contains(Protection::spec_execute()) { 4u32 } else { 0u32 }),
{
    let mut p: u32 = 0;
    if flags.contains(Protection::read()) {
        p = p + prot_read();
    }
    if flags.contains(Protection::write()) {
        p = p + prot_write();
    }
    if flags.contains(Protection::execute()) {
        p = p + prot_exec();
    }
    p
}

/// A change of the rights of `size` bytes at `address` that is undone
/// once: `set` while the old rights are still to be restored.
pub struct MemoryProtector {
    address: usize,
    size: usize,
    old_protection: u32,
    set: bool,
}

impl MemoryProtector {
    pub closed spec fn spec_address(&self) -> usize {
        self.address
    }

    pub closed spec fn spec_size(&self) -> usize {
        self.size
    }

    pub closed spec fn spec_old_protection(&self) -> u32 {
        self.old_protection
    }

    pub closed spec fn spec_is_set(&self) -> bool {
        self.set
    }

    /// The record of a change of the rights of `size` bytes at `address`:
    /// `old_protection` holds the rights found before the change when the
    /// change was made, and is `None` when it was not.
    pub fn new(address: usize, size: usize, old_protection: Option<u32>) -> (r: Self)
        ensures
            r.spec_address() == address,
            r.spec_size() == size,
            r.spec_is_set() == old_protection is Some,
            old_protection matches Some(p) ==> r.spec_old_protection() == p,
    {
        match old_protection {
            Some(p) => MemoryProtector { address, size, old_protection: p, set: true },
            None => MemoryProtector { address, size, old_protection: 0, set: false },
        }
    }

    /// Whether the rights were changed and are not yet restored.
    pub fn is_set(&self) -> (r: bool)
        ensures
            r == self.spec_is_set(),
    {
        self.set
    }

    pub fn address(&self) -> (r: usize)
        ensures
            r == self.spec_address(),
    {
        self.address
    }

    pub fn size(&self) -> (r: usize)
        ensures
            r == self.spec_size(),
    {
        self.size
    }

    /// What to restore: the range and its old rights, the first time only.
    /// After the call nothing is left to restore.
    pub fn restore(&mut self) -> (r: Option<(usize, usize, u32)>)
        ensures
            old(self).spec_is_set() ==> r == Some((old(self).spec_address(), old(self).spec_size(), old(self).spec_old_protection())),
            !old(self).spec_is_set() ==> r is None,
            !final(self).spec_is_set(),
            final(self).spec_address() == old(self).spec_address(),
            final(self).spec_size() == old(self).spec_size(),
    {
        if !self.set {
            return None;
        }
        self.set = false;
        Some((self.address, self.size, self.old_protection))
    }
}

} // verus!

//! The operating system constants the module and memory logic works with,
//! taken from `libc`.
use vstd::prelude::*;

verus! {

/// `libc::PROT_READ`, the memory protection bit for reading; `libc` gives it
/// the value 1 on Linux.
#[verifier::external_body]
pub(crate) fn prot_read() -> (r: u32)
    ensures
        r == 1,
{
    libc::PROT_READ as u32
}

/// `libc::PROT_WRITE`, the memory protection bit for writing; `libc` gives
/// it the value 2 on Linux.
#[verifier::external_body]
pub(crate) fn prot_write() -> (r: u32)
    ensures
        r == 2,
{
    libc::PROT_WRITE as u32
}

/// `libc::PROT_EXEC`, the memory protection bit for executing; `libc` gives
/// it the value 4 on Linux.
#[verifier::external_body]
pub(crate) fn prot_exec() -> (r: u32)
    ensures
        r == 4,
{
    libc::PROT_EXEC as u32
}

/// `libc::PT_LOAD`, the program header type of a loadable segment; `libc`
/// gives it the value 1.
#[verifier::external_body]
pub(crate) fn pt_load() -> (r: u32)
    ensures
        r == 1,
{
    libc::PT_LOAD
}

/// `libc::PF_R`, the segment flag for readable; `libc` gives it the value 4.
#[verifier::external_body]
pub(crate) fn pf_r() -> (r: u32)
    ensures
        r == 4,
{
    libc::PF_R
}

/// `libc::PF_W`, the segment flag for writable; `libc` gives it the value 2.
#[verifier::external_body]
pub(crate) fn pf_w() -> (r: u32)
    ensures
        r == 2,
{
    libc::PF_W
}

/// `libc::PF_X`, the segment flag for executable; `libc` gives it the value 1.
#[verifier::external_body]
pub(crate) fn pf_x() -> (r: u32)
    ensures
        r == 1,
{
    libc::PF_X
}

} // verus!

//! Facts about the machine that the scanner adapts to: the page size and
//! the vector extensions of the processor.  Reading them from the operating
//! system and the processor is left to the caller; this module holds them
//! and decides what follows from them.
use vstd::prelude::*;

verus! {

/// Facts about the memory system.
#[derive(Clone, Copy, Debug, PartialEq, Eq, Structural)]
pub struct SystemInfo {
    pub page_size: usize,
}

impl SystemInfo {
    /// The facts for a machine whose pages are `page_size` bytes long.
    pub fn new(page_size: usize) -> (r: Self)
        ensures
            r.page_size == page_size,
    {
        SystemInfo { page_size }
    }

    /// The size of a memory page in bytes.
    pub fn page_size(&self) -> (r: usize)
        ensures
            r == self.page_size,
    {
        self.page_size
    }
}

/// The vector extensions of an x86-64 processor that the scanners use.
#[derive(Clone, Copy, Debug, PartialEq, Eq, Structural)]
pub struct CpuExtensions {
    pub sse41: bool,
    pub avx2: bool,
    pub avx512f: bool,
    pub avx512bw: bool,
    pub bmi: bool,
}

/// The scanner implementation a processor supports best.
#[derive(Clone, Copy, Debug, PartialEq, Eq, Structural)]
pub enum ScanMode {
    Single,
    Sse,
    Avx2,
    Avx512,
    Neon,
}

/// Picks the scanner for the processor: AVX-512 (when built in, and both
/// the foundation and byte/word extensions are present), else AVX2, else
/// SSE 4.1 on x86-64; NEON on AArch64; the scalar scanner otherwise.
pub fn resolve_scan_mode(x86: Option<CpuExtensions>, avx512_enabled: bool, neon: bool) -> (r: ScanMode)
    ensures
        r == match x86 {
            Some(ext) => if avx512_enabled && ext.avx512f && ext.avx512bw {
                ScanMode::Avx512
            } else if ext.avx2 {
                ScanMode::Avx2
            } else if ext.sse41 {
                ScanMode::Sse
            } else {
                ScanMode::Single
            },
            None => if neon {
                ScanMode::Neon
            } else {
                ScanMode::Single
            },
        },
{
    match x86 {
        Some(ext) => {
            if avx512_enabled && ext.avx512f && ext.avx512bw {
                return ScanMode::Avx512;
            }
            if ext.avx2 {
                return ScanMode::Avx2;
            }
            if ext.sse41 {
                return ScanMode::Sse;
            }
            ScanMode::Single
        },
        None => {
            if neon {
                ScanMode::Neon
            } else {
                ScanMode::Single
            }
        },
    }
}

} // verus!

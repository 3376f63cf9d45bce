# hat

Byte-pattern scanning for the memory of a running process, with its logic
verified by Verus.

A signature such as `48 8D 05 ? ? ? ? E8` is a sequence of elements, each a
byte value under a bit mask; it matches the bytes at an offset when every
element accepts the byte at its place.  The scanners return the first such
offset.

## Layout

- `src/` — the verified library.
  - `signature` — elements, the text syntax (hex, binary and wildcard
    tokens), printing, and the round trip between them.
  - `scanner` — the scalar scanner, scan contexts, the choice of the byte
    pair compared first, repeated and bounded scans, chunking for parallel
    scans.
  - `arch` — the block scanners of the SSE, AVX2, AVX-512 and NEON modes,
    with their alignment masks.
  - `result`, `bytes` — scan results and reading values at them, in the
    byte order the caller names (the machine's own, for memory).
  - `protection`, `memory_protector` — access rights and the bookkeeping of
    a temporary change of rights.
  - `elf`, `process` — the section table of an ELF file, program headers,
    segments, and the memory map of Linux.
  - `macho`, `pe` — the load commands of Mach-O images and the headers of
    PE images, and how macOS and Windows report memory rights.
  - `system` — machine facts and the choice of scanner.
  - `c` — the values and checks behind the C interface.
- `app/` — the process-facing layer: processor detection, threads, the
  Linux loader and `/proc/self/maps`, `mprotect`, and the exported C
  functions.
- `tests/` — tests of the library.

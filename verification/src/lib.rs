//! Byte-pattern scanning: signatures, their text syntax, and scanners.
pub mod signature;
pub mod bytes;
pub mod result;
pub mod scanner;
pub mod protection;
pub mod system;
pub mod c;
mod platform;
pub mod elf;
pub mod process;
pub mod memory_protector;
pub mod arch;
pub mod macho;
pub mod pe;

//! Verified core of the SillOS kernel: physical and virtual memory
//! management, the kernel heaps, the in-memory file system, the text
//! console and the command-line parsing used by the shell.

pub mod memory;
pub mod kmem;
pub mod acpi;
pub mod test;
pub mod fs;
pub mod text;
pub mod fb;
pub mod font;
pub mod console;
pub mod shell;
pub mod term;

//! Building and querying x86-64 disassembly listings.
use vstd::prelude::*;

pub mod annotate;
pub mod decoder;
pub mod disassembly;
pub mod lines;
pub mod listing;
pub mod numfmt;
pub mod probe;
pub mod ranges;
pub mod style;
pub mod symbols;

pub use decoder::MAX_X86_INSTRUCTION_BYTES;
pub use disassembly::{Disassembly, DisassemblyLineInfo, DisassemblyLineKind, Error, ErrorKind};
pub use listing::{disassemble_function, disassemble_memory};
pub use probe::{find_best_instruction_start_before_addr, find_unique_instruction_start_before_ip};
pub use ranges::clean_up_ranges;

//! A flat, permission-checked guest address space ("soft MMU") built for
//! snapshot-based execution: it can be forked into independent copies and
//! cheaply reset back to a baseline, restoring only the blocks that were
//! dirtied since the fork.

mod bits;
pub mod emu;
pub mod laws;
pub mod mmu;
pub mod model;

//! The emulator shell around the memory space. The surrounding
//! interpretation loop lives outside this crate; the emulator state it
//! needs from here is only the memory.

use vstd::prelude::*;

use crate::mmu::{Mmu, DIRTY_BLOCK_SIZE};
use crate::model::{fork_spec, new_spec};

verus! {

/// State of the emulated system.
pub struct Emulator {
    /// Memory for the emulator.
    pub memory: Mmu,
}

impl Emulator {
    /// Create a new emulator with a `size`-byte memory space.
    pub fn new(size: usize) -> (r: Emulator)
        requires
            DIRTY_BLOCK_SIZE <= size,
            size + DIRTY_BLOCK_SIZE - 1 <= usize::MAX,
        ensures
            r.memory.wf(),
            r.memory@ == new_spec(size as int),
    {
        Emulator { memory: Mmu::new(size) }
    }

    /// Fork the emulator: its memory is forked, so the copy shares no
    /// mutable state with this one.
    pub fn fork(&self) -> (r: Emulator)
        requires
            self.memory.wf(),
        ensures
            r.memory.wf(),
            r.memory@ == fork_spec(self.memory@),
    {
        Emulator { memory: self.memory.fork() }
    }
}

} // verus!

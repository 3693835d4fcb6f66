//! The mathematical model of the memory space. Every executable operation
//! of [`crate::mmu::Mmu`] is specified as a pure function from an
//! [`MmuView`] to its successor; the laws in [`crate::laws`] are proved
//! over these functions.

use vstd::prelude::*;

use crate::mmu::{MmuError, Perm, ALIGNMENT, DIRTY_BLOCK_SIZE, PERM_READ, PERM_WRITE};

verus! {

/// The abstract state of a memory space: the bytes, the parallel per-byte
/// permissions, the set of block indices dirtied since the last fork or
/// reset, and the bump allocator's cursor.
#[verifier::ext_equal]
pub ghost struct MmuView {
    pub mem: Seq<u8>,
    pub perms: Seq<Perm>,
    pub dirty: Set<usize>,
    pub alloc_base: int,
}

/// `n` rounded up to a multiple of `ALIGNMENT`.
pub open spec fn align_spec(n: int) -> int {
    ((n + (ALIGNMENT - 1)) / (ALIGNMENT as int)) * (ALIGNMENT as int)
}

/// `n` rounded up to a multiple of `DIRTY_BLOCK_SIZE`.
pub open spec fn round_up_to_block(n: int) -> int {
    ((n + (DIRTY_BLOCK_SIZE - 1)) / (DIRTY_BLOCK_SIZE as int)) * (DIRTY_BLOCK_SIZE as int)
}

/// How `align_spec` behaves: it rounds up to the next multiple of
/// `ALIGNMENT`, so it never moves a value by a whole alignment unit, and it
/// leaves multiples of `ALIGNMENT` alone.
pub proof fn lemma_align_spec_bounds(n: int)
    requires
        0 <= n,
    ensures
        n <= align_spec(n) <= n + (ALIGNMENT - 1),
        n % (ALIGNMENT as int) == 0 ==> align_spec(n) == n,
        n % (ALIGNMENT as int) != 0 ==> align_spec(n) == (n / (ALIGNMENT as int)) * (
        ALIGNMENT as int) + (ALIGNMENT as int),
{
    let a = ALIGNMENT as int;
    vstd::arithmetic::div_mod::lemma_fundamental_div_mod(n, a);
    vstd::arithmetic::div_mod::lemma_mod_bound(n, a);
    let q = n / a;
    let r = n % a;
    if r == 0 {
        vstd::arithmetic::div_mod::lemma_fundamental_div_mod_converse_div(n + a - 1, a, q, a - 1);
    } else {
        vstd::arithmetic::div_mod::lemma_fundamental_div_mod_converse_div(n + a - 1, a, q + 1, r - 1);
    }
}

/// Number of dirty blocks that partition a buffer of `mem_len` bytes.
pub open spec fn num_blocks(mem_len: int) -> int {
    mem_len / (DIRTY_BLOCK_SIZE as int)
}

/// The block that byte offset `j` belongs to.
pub open spec fn block_of(j: int) -> int {
    j / (DIRTY_BLOCK_SIZE as int)
}

/// The permission byte allows writing.
pub open spec fn can_write(p: Perm) -> bool {
    p.0 & PERM_WRITE != 0
}

/// The permission byte allows reading.
pub open spec fn can_read(p: Perm) -> bool {
    p.0 & PERM_READ != 0
}

/// The byte range `[from, from + len)` lies inside the buffer.
pub open spec fn in_bounds(v: MmuView, from: int, len: int) -> bool {
    0 <= from && 0 <= len && from + len <= v.mem.len()
}

/// Every byte of `[from, from + len)` carries `PERM_WRITE`.
pub open spec fn writable(v: MmuView, from: int, len: int) -> bool {
    forall|j: int| from <= j < from + len ==> can_write(#[trigger] v.perms[j])
}

/// Every byte of `[from, from + len)` carries `PERM_READ`.
pub open spec fn readable(v: MmuView, from: int, len: int) -> bool {
    forall|j: int| from <= j < from + len ==> can_read(#[trigger] v.perms[j])
}

/// The set of block indices whose byte range intersects `[from, from + len)`.
pub open spec fn block_span(from: int, len: int) -> Set<usize> {
    Set::new(|b: usize| len > 0 && block_of(from) <= b && b <= block_of(from + len - 1))
}

/// The permission buffer with `[from, from + len)` overwritten by `p`.
pub open spec fn overwrite_perms(perms: Seq<Perm>, from: int, len: int, p: Perm) -> Seq<Perm> {
    Seq::new(perms.len(), |j: int| if from <= j < from + len { p } else { perms[j] })
}

/// A well-formed view: parallel buffers of equal length, the length a
/// positive multiple of the block size that fits a real buffer, the cursor
/// inside the buffer, and the dirty set a finite set of valid block indices.
pub open spec fn view_wf(v: MmuView) -> bool {
    &&& v.perms.len() == v.mem.len()
    &&& v.mem.len() as int % (DIRTY_BLOCK_SIZE as int) == 0
    &&& DIRTY_BLOCK_SIZE <= v.mem.len() <= usize::MAX
    &&& 0 <= v.alloc_base <= v.mem.len()
    &&& v.dirty.finite()
    &&& forall|b: usize| #[trigger] v.dirty.contains(b) ==> b < num_blocks(v.mem.len() as int)
}

/// The state of a freshly constructed memory space of requested capacity
/// `size`: zeroed bytes, no permissions, nothing dirty, cursor at zero.
pub open spec fn new_spec(size: int) -> MmuView {
    MmuView {
        mem: Seq::new(round_up_to_block(size) as nat, |j: int| 0u8),
        perms: Seq::new(round_up_to_block(size) as nat, |j: int| Perm(0)),
        dirty: Set::empty(),
        alloc_base: 0,
    }
}

/// What `allocate` does: advance the cursor by the aligned length and make
/// the requested bytes write-only, or fail with `OutOfMemory` leaving the
/// state unchanged.
pub open spec fn allocate_spec(v: MmuView, size: int) -> Result<(MmuView, int), MmuError> {
    let base = v.alloc_base;
    if base + align_spec(size) > v.mem.len() {
        Err(MmuError::OutOfMemory)
    } else {
        Ok(
            (
                MmuView {
                    perms: overwrite_perms(v.perms, base, size, Perm(PERM_WRITE)),
                    alloc_base: base + align_spec(size),
                    ..v
                },
                base,
            ),
        )
    }
}

/// What `set_permissions` does: overwrite (not merge) the permission of
/// every byte in range, or fail with `OutOfBounds`.
pub open spec fn set_permissions_spec(v: MmuView, addr: int, size: int, perm: Perm) -> Result<
    MmuView,
    MmuError,
> {
    if !in_bounds(v, addr, size) {
        Err(MmuError::OutOfBounds)
    } else {
        Ok(MmuView { perms: overwrite_perms(v.perms, addr, size, perm), ..v })
    }
}

/// What `write` does: if the range is in bounds and every byte of it is
/// writable, copy the data in, grant `PERM_READ` on the range, and mark
/// every intersected block dirty; otherwise fail, leaving the state
/// unchanged.
pub open spec fn write_spec(v: MmuView, addr: int, data: Seq<u8>) -> Result<MmuView, MmuError> {
    if !in_bounds(v, addr, data.len() as int) {
        Err(MmuError::OutOfBounds)
    } else if !writable(v, addr, data.len() as int) {
        Err(MmuError::PermissionFault)
    } else {
        Ok(
            MmuView {
                mem: Seq::new(
                    v.mem.len(),
                    |j: int|
                        if addr <= j < addr + data.len() {
                            data[j - addr]
                        } else {
                            v.mem[j]
                        },
                ),
                perms: Seq::new(
                    v.perms.len(),
                    |j: int|
                        if addr <= j < addr + data.len() {
                            Perm(v.perms[j].0 | PERM_READ)
                        } else {
                            v.perms[j]
                        },
                ),
                dirty: v.dirty + block_span(addr, data.len() as int),
                ..v
            },
        )
    }
}

/// What `read` does: the bytes of the range if it is in bounds and every
/// byte of it is readable; the state never changes.
pub open spec fn read_spec(v: MmuView, addr: int, len: int) -> Result<Seq<u8>, MmuError> {
    if !in_bounds(v, addr, len) {
        Err(MmuError::OutOfBounds)
    } else if !readable(v, addr, len) {
        Err(MmuError::PermissionFault)
    } else {
        Ok(v.mem.subrange(addr, addr + len))
    }
}

/// What `fork` does: a byte-for-byte copy of data and permissions with the
/// same cursor and an empty dirty set.
pub open spec fn fork_spec(v: MmuView) -> MmuView {
    MmuView { dirty: Set::empty(), ..v }
}

/// What `reset` does: every byte whose block is dirty is restored, in both
/// buffers, from `base`; every other byte is untouched; the dirty set is
/// cleared; the cursor is kept.
pub open spec fn reset_spec(v: MmuView, base: MmuView) -> MmuView {
    MmuView {
        mem: Seq::new(
            v.mem.len(),
            |j: int|
                if v.dirty.contains(block_of(j) as usize) {
                    base.mem[j]
                } else {
                    v.mem[j]
                },
        ),
        perms: Seq::new(
            v.perms.len(),
            |j: int|
                if v.dirty.contains(block_of(j) as usize) {
                    base.perms[j]
                } else {
                    v.perms[j]
                },
        ),
        dirty: Set::empty(),
        ..v
    }
}

} // verus!

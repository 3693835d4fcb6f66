//! The guarantees the memory space gives its callers, stated over the
//! model of [`crate::model`] and proved once and for all. Each executable
//! operation's `ensures` ties it to the model, so these laws carry over to
//! the running code.

use vstd::prelude::*;

use crate::bits::{lemma_u8_fresh_perms, lemma_u8_grant_read};
use crate::mmu::{MmuError, Perm, PERM_WRITE};
use crate::model::{
    align_spec, allocate_spec, block_span, can_read, can_write, fork_spec, in_bounds,
    lemma_align_spec_bounds, new_spec, read_spec, reset_spec, set_permissions_spec, view_wf,
    write_spec, MmuView,
};

verus! {

/// Every successful allocation stays within the buffer, and two successive
/// allocations hand out ranges that never overlap: the second begins at or
/// after the end of the first.
pub proof fn lemma_allocations_never_overlap(v: MmuView, s1: int, s2: int)
    requires
        view_wf(v),
        0 <= s1,
        0 <= s2,
        allocate_spec(v, s1) is Ok,
        allocate_spec(allocate_spec(v, s1)->Ok_0.0, s2) is Ok,
    ensures
        ({
            let (v1, a1) = allocate_spec(v, s1)->Ok_0;
            let (v2, a2) = allocate_spec(v1, s2)->Ok_0;
            &&& 0 <= a1 && a1 + s1 <= v.mem.len()
            &&& 0 <= a2 && a2 + s2 <= v.mem.len()
            &&& a1 + s1 <= a2
        }),
{
    lemma_align_spec_bounds(s1);
    lemma_align_spec_bounds(s2);
}

/// The allocator's cursor never decreases, and every range it returns lies
/// at the old cursor and entirely below the new one. With
/// `lemma_allocations_never_overlap` this extends to any number of
/// allocations: each later range begins at or after the end of every
/// earlier one.
pub proof fn lemma_allocate_cursor_monotone(v: MmuView, size: int)
    requires
        0 <= size,
        allocate_spec(v, size) is Ok,
    ensures
        ({
            let (v1, a) = allocate_spec(v, size)->Ok_0;
            &&& a == v.alloc_base
            &&& a + size <= v1.alloc_base
            &&& v.alloc_base <= v1.alloc_base
            &&& v1.mem.len() == v.mem.len()
        }),
{
    lemma_align_spec_bounds(size);
}

/// Allocation fails, with `OutOfMemory`, exactly when the aligned request
/// would push the cursor past the end of the buffer — even by a single
/// byte. (That a failed allocation leaves the state unchanged is part of
/// `Mmu::allocate`'s own contract.)
pub proof fn lemma_allocate_out_of_memory(v: MmuView, size: int)
    requires
        0 <= size,
    ensures
        allocate_spec(v, size) is Err <==> v.alloc_base + align_spec(size) > v.mem.len(),
        allocate_spec(v, size) is Err ==> allocate_spec(v, size)->Err_0
            == MmuError::OutOfMemory,
{
}

/// A write to an in-bounds range of which some byte lacks `PERM_WRITE`
/// fails with `PermissionFault`.
pub proof fn lemma_write_without_permission_faults(v: MmuView, addr: int, data: Seq<u8>)
    requires
        in_bounds(v, addr, data.len() as int),
        exists|j: int| addr <= j < addr + data.len() && !can_write(#[trigger] v.perms[j]),
    ensures
        write_spec(v, addr, data) == Err::<MmuView, MmuError>(MmuError::PermissionFault),
{
}

/// In a freshly constructed memory space nothing has been allocated or
/// explicitly permissioned, so every (non-empty, in-bounds) write faults
/// with `PermissionFault`.
pub proof fn lemma_write_to_unallocated_faults(size: int, addr: int, data: Seq<u8>)
    requires
        0 < data.len(),
        0 <= addr,
        addr + data.len() <= new_spec(size).mem.len(),
    ensures
        write_spec(new_spec(size), addr, data) == Err::<MmuView, MmuError>(
            MmuError::PermissionFault,
        ),
{
    lemma_u8_fresh_perms();
    assert(!can_write(new_spec(size).perms[addr]));
}

/// Write/read round-trip: after a successful write of `data` at `addr`, an
/// immediate read of the same range succeeds and returns exactly `data`.
pub proof fn lemma_write_then_read_round_trip(v: MmuView, addr: int, data: Seq<u8>)
    requires
        view_wf(v),
        write_spec(v, addr, data) is Ok,
    ensures
        read_spec(write_spec(v, addr, data)->Ok_0, addr, data.len() as int) == Ok::<
            Seq<u8>,
            MmuError,
        >(data),
{
    let v2 = write_spec(v, addr, data)->Ok_0;
    assert forall|j: int| addr <= j < addr + data.len() implies can_read(
        #[trigger] v2.perms[j],
    ) by {
        lemma_u8_grant_read(v.perms[j].0);
    }
    assert(v2.mem.subrange(addr, addr + data.len() as int) =~= data);
}

/// Uninitialized-read detection: allocated memory is write-only until it
/// is written, so reading any non-empty part of a fresh allocation faults
/// with `PermissionFault`.
pub proof fn lemma_read_of_unwritten_allocation_faults(v: MmuView, size: int, off: int, len: int)
    requires
        view_wf(v),
        0 <= size,
        allocate_spec(v, size) is Ok,
        0 <= off,
        0 < len,
        off + len <= size,
    ensures
        ({
            let (v1, base) = allocate_spec(v, size)->Ok_0;
            read_spec(v1, base + off, len) == Err::<Seq<u8>, MmuError>(MmuError::PermissionFault)
        }),
{
    lemma_align_spec_bounds(size);
    lemma_u8_fresh_perms();
    let (v1, base) = allocate_spec(v, size)->Ok_0;
    assert(v1.perms[base + off] == Perm(PERM_WRITE));
    assert(!can_read(v1.perms[base + off]));
}

/// `fork` followed immediately by `reset` against the source is a no-op:
/// the fork has nothing dirty, so its bytes and permissions stay equal to
/// the source's, byte for byte.
pub proof fn lemma_fork_then_reset_is_noop(v: MmuView)
    ensures
        reset_spec(fork_spec(v), v) == fork_spec(v),
{
    assert(reset_spec(fork_spec(v), v).mem =~= fork_spec(v).mem);
    assert(reset_spec(fork_spec(v), v).perms =~= fork_spec(v).perms);
    assert(reset_spec(fork_spec(v), v) =~= fork_spec(v));
}

/// A single successful write dirties exactly the blocks its range
/// intersects, on top of whatever was dirty before.
pub proof fn lemma_write_dirties_intersected_blocks(v: MmuView, addr: int, data: Seq<u8>)
    requires
        write_spec(v, addr, data) is Ok,
    ensures
        write_spec(v, addr, data)->Ok_0.dirty == v.dirty + block_span(addr, data.len() as int),
{
}

/// A batch of writes, each applied to the state the previous one left
/// behind; `None` if any of them fails.
pub open spec fn apply_writes(v: MmuView, ws: Seq<(int, Seq<u8>)>) -> Option<MmuView>
    decreases ws.len(),
{
    if ws.len() == 0 {
        Some(v)
    } else {
        match write_spec(v, ws[0].0, ws[0].1) {
            Ok(v2) => apply_writes(v2, ws.drop_first()),
            Err(_) => None,
        }
    }
}

/// The blocks whose byte ranges intersect any of the written ranges.
pub open spec fn spans_of_writes(ws: Seq<(int, Seq<u8>)>) -> Set<usize>
    decreases ws.len(),
{
    if ws.len() == 0 {
        Set::empty()
    } else {
        block_span(ws[0].0, ws[0].1.len() as int) + spans_of_writes(ws.drop_first())
    }
}

/// After a batch of writes the dirty set has grown by exactly the set of
/// blocks whose byte ranges intersect some written range — however many
/// write calls touched each block.
pub proof fn lemma_dirty_blocks_after_batch(v: MmuView, ws: Seq<(int, Seq<u8>)>)
    requires
        apply_writes(v, ws) is Some,
    ensures
        apply_writes(v, ws)->0.dirty == v.dirty + spans_of_writes(ws),
    decreases ws.len(),
{
    if ws.len() == 0 {
        assert(v.dirty =~= v.dirty + spans_of_writes(ws));
    } else {
        let v2 = write_spec(v, ws[0].0, ws[0].1)->Ok_0;
        lemma_dirty_blocks_after_batch(v2, ws.drop_first());
        assert(v2.dirty + spans_of_writes(ws.drop_first()) =~= v.dirty + spans_of_writes(ws));
    }
}

/// Dirty-block count: starting with nothing dirty, after a batch of writes
/// the number of dirty blocks equals the number of distinct blocks whose
/// byte ranges intersect any written range — not the number of writes.
pub proof fn lemma_dirty_count_after_batch(v: MmuView, ws: Seq<(int, Seq<u8>)>)
    requires
        apply_writes(v, ws) is Some,
        v.dirty == Set::<usize>::empty(),
    ensures
        apply_writes(v, ws)->0.dirty.len() == spans_of_writes(ws).len(),
{
    lemma_dirty_blocks_after_batch(v, ws);
    assert(v.dirty + spans_of_writes(ws) =~= spans_of_writes(ws));
}

/// `set_permissions` overwrites: a write to a range whose permission was
/// set without `PERM_WRITE` faults, whatever the range allowed before —
/// in particular even if it was readable.
pub proof fn lemma_set_permissions_revokes_write(
    v: MmuView,
    addr: int,
    size: int,
    p: Perm,
    waddr: int,
    data: Seq<u8>,
)
    requires
        view_wf(v),
        set_permissions_spec(v, addr, size, p) is Ok,
        p.0 & PERM_WRITE == 0,
        0 < data.len(),
        addr <= waddr,
        waddr + data.len() <= addr + size,
    ensures
        write_spec(set_permissions_spec(v, addr, size, p)->Ok_0, waddr, data) == Err::<
            MmuView,
            MmuError,
        >(MmuError::PermissionFault),
{
    let v2 = set_permissions_spec(v, addr, size, p)->Ok_0;
    assert(v2.perms[waddr] == p);
    assert(!can_write(v2.perms[waddr]));
}

} // verus!

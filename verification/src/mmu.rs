//! The memory space itself: two parallel buffers (data and per-byte
//! permissions), a bump allocator, and block-granular dirty tracking that
//! makes `reset` proportional to the bytes actually touched.

use vstd::prelude::*;

use crate::bits::{lemma_u128_bit_of_zero, lemma_u128_clear_bit, lemma_u128_set_bit};
use crate::model::{
    align_spec, allocate_spec, block_of, fork_spec, lemma_align_spec_bounds, new_spec, num_blocks,
    overwrite_perms, read_spec, reset_spec, set_permissions_spec, view_wf, write_spec, MmuView,
};

verus! {

/// Every allocation is rounded up to a multiple of this many bytes.
/// A fixed internal constant, not runtime-configurable.
pub const ALIGNMENT: usize = 16;

/// Size in bytes of one dirty block, the granularity of dirty tracking
/// and of `reset`. A fixed internal constant, not runtime-configurable.
pub const DIRTY_BLOCK_SIZE: usize = 4096;

/// Number of bits in one word of the dirty bitmap.
pub const DBE_BITS: usize = 128;

/// Permission bit: the byte may be written.
pub const PERM_WRITE: u8 = 1;

/// Permission bit: the byte may be read.
pub const PERM_READ: u8 = 2;

/// Permission bit: the byte may be executed. Tracked but not enforced by
/// the operations here; instruction fetch is outside this crate.
pub const PERM_EXEC: u8 = 4;

/// Memory permissions for a corresponding address: a small bit field of
/// `PERM_WRITE`, `PERM_READ` and `PERM_EXEC`.
#[derive(Clone, Copy, Debug, PartialEq, Eq, PartialOrd, Ord, Structural)]
pub struct Perm(pub u8);

/// A guest virtual address: a zero-based byte offset into the address
/// space, used directly as an index into the backing buffers.
#[derive(Clone, Copy, Debug, PartialEq, Eq, PartialOrd, Ord, Structural)]
pub struct VAddr(pub usize);

/// Why a memory operation was refused.
#[derive(Clone, Copy, Debug, PartialEq, Eq, Structural)]
pub enum MmuError {
    /// The allocator cannot satisfy the request within remaining capacity.
    OutOfMemory,
    /// Some byte in the range lacked the permission the access needed.
    PermissionFault,
    /// The range falls outside the buffer, including address overflow.
    OutOfBounds,
}

/// Returns `num` rounded up to a multiple of `ALIGNMENT`.
pub fn align(num: usize) -> (r: usize)
    requires
        num + ALIGNMENT - 1 <= usize::MAX,
    ensures
        r == align_spec(num as int),
{
    let t = num + (ALIGNMENT - 1);
    proof {
        vstd::arithmetic::div_mod::lemma_fundamental_div_mod(t as int, ALIGNMENT as int);
        vstd::arithmetic::div_mod::lemma_mod_bound(t as int, ALIGNMENT as int);
    }
    (t / ALIGNMENT) * ALIGNMENT
}

/// A vector of `len` copies of `val`.
fn fill_vec<T: Copy>(len: usize, val: T) -> (v: Vec<T>)
    ensures
        v@ == Seq::new(len as nat, |i: int| val),
{
    let mut v: Vec<T> = Vec::with_capacity(len);
    let mut i: usize = 0;
    while i < len
        invariant
            i <= len,
            v@.len() == i,
            forall|k: int| 0 <= k < i ==> v@[k] == val,
        decreases len - i,
    {
        v.push(val);
        i = i + 1;
    }
    proof {
        assert(v@ =~= Seq::new(len as nat, |i: int| val));
    }
    v
}

/// `align_spec(size)` if it fits in a `usize`, `None` otherwise.
fn checked_align(size: usize) -> (r: Option<usize>)
    ensures
        match r {
            Some(a) => a == align_spec(size as int),
            None => align_spec(size as int) > usize::MAX,
        },
{
    proof {
        lemma_align_spec_bounds(size as int);
        vstd::arithmetic::div_mod::lemma_fundamental_div_mod(size as int, ALIGNMENT as int);
        vstd::arithmetic::div_mod::lemma_mod_bound(size as int, ALIGNMENT as int);
    }
    let rem = size % ALIGNMENT;
    if rem == 0 {
        Some(size)
    } else {
        ((size / ALIGNMENT) * ALIGNMENT).checked_add(ALIGNMENT)
    }
}

/// Overwrite the permission of every byte in `[from, to)` with `perm`.
fn set_perm_range(perms: &mut Vec<Perm>, from: usize, to: usize, perm: Perm)
    requires
        from <= to <= old(perms)@.len(),
    ensures
        final(perms)@ == overwrite_perms(old(perms)@, from as int, (to - from) as int, perm),
{
    let mut j: usize = from;
    while j < to
        invariant
            from <= j <= to <= perms@.len(),
            perms@.len() == old(perms)@.len(),
            forall|k: int| 0 <= k < perms@.len() && !(from <= k < j) ==> perms@[k] == old(
                perms,
            )@[k],
            forall|k: int| from <= k < j ==> perms@[k] == perm,
        decreases to - j,
    {
        perms.set(j, perm);
        j = j + 1;
    }
    proof {
        assert(perms@ =~= overwrite_perms(old(perms)@, from as int, (to - from) as int, perm));
    }
}

/// True iff every byte of `[from, to)` carries the permission bits of `mask`.
fn check_perm_bits(perms: &Vec<Perm>, from: usize, to: usize, mask: u8) -> (ok: bool)
    requires
        from <= to <= perms@.len(),
    ensures
        ok <==> (forall|j: int| from <= j < to ==> ((#[trigger] perms@[j]).0 & mask) != 0),
{
    let mut j: usize = from;
    while j < to
        invariant
            from <= j <= to <= perms@.len(),
            forall|k: int| from <= k < j ==> ((#[trigger] perms@[k]).0 & mask) != 0,
        decreases to - j,
    {
        if perms[j].0 & mask == 0 {
            return false;
        }
        j = j + 1;
    }
    true
}

/// Copy `buf` into `mem` starting at offset `from`.
fn copy_from_slice_range(mem: &mut Vec<u8>, from: usize, buf: &[u8])
    requires
        from + buf@.len() <= old(mem)@.len(),
    ensures
        final(mem)@.len() == old(mem)@.len(),
        forall|k: int|
            0 <= k < old(mem)@.len() && !(from <= k < from + buf@.len()) ==> final(mem)@[k] == old(
                mem,
            )@[k],
        forall|k: int| from <= k < from + buf@.len() ==> final(mem)@[k] == buf@[k - from],
{
    let n = buf.len();
    let mem_len = mem.len();
    let mut j: usize = 0;
    while j < n
        invariant
            j <= n == buf@.len(),
            from + n <= mem_len == mem@.len(),
            mem@.len() == old(mem)@.len(),
            forall|k: int|
                0 <= k < mem@.len() && !(from <= k < from + j) ==> mem@[k] == old(mem)@[k],
            forall|k: int| from <= k < from + j ==> mem@[k] == buf@[k - from],
        decreases n - j,
    {
        mem.set(from + j, buf[j]);
        j = j + 1;
    }
}

/// Merge the permission bits of `mask` into every byte of `[from, to)`.
fn or_perm_range(perms: &mut Vec<Perm>, from: usize, to: usize, mask: u8)
    requires
        from <= to <= old(perms)@.len(),
    ensures
        final(perms)@.len() == old(perms)@.len(),
        forall|k: int|
            0 <= k < old(perms)@.len() && !(from <= k < to) ==> final(perms)@[k] == old(
                perms,
            )@[k],
        forall|k: int| from <= k < to ==> final(perms)@[k] == Perm(old(perms)@[k].0 | mask),
{
    let mut j: usize = from;
    while j < to
        invariant
            from <= j <= to <= perms@.len(),
            perms@.len() == old(perms)@.len(),
            forall|k: int| 0 <= k < perms@.len() && !(from <= k < j) ==> perms@[k] == old(
                perms,
            )@[k],
            forall|k: int| from <= k < j ==> perms@[k] == Perm(old(perms)@[k].0 | mask),
        decreases to - j,
    {
        let p = perms[j];
        perms.set(j, Perm(p.0 | mask));
        j = j + 1;
    }
}

/// The bytes of `mem[from..to]`, copied out.
fn read_range(mem: &Vec<u8>, from: usize, to: usize) -> (r: Vec<u8>)
    requires
        from <= to <= mem@.len(),
    ensures
        r@ == mem@.subrange(from as int, to as int),
{
    let mut r: Vec<u8> = Vec::with_capacity(to - from);
    let mut j: usize = from;
    while j < to
        invariant
            from <= j <= to <= mem@.len(),
            r@.len() == j - from,
            forall|k: int| 0 <= k < j - from ==> r@[k] == mem@[from + k],
        decreases to - j,
    {
        r.push(mem[j]);
        j = j + 1;
    }
    proof {
        assert(r@ =~= mem@.subrange(from as int, to as int));
    }
    r
}

/// An element-for-element copy of `src`.
fn clone_vec<T: Copy>(src: &Vec<T>) -> (r: Vec<T>)
    ensures
        r@ == src@,
{
    let n = src.len();
    let mut r: Vec<T> = Vec::with_capacity(n);
    let mut j: usize = 0;
    while j < n
        invariant
            j <= n == src@.len(),
            r@.len() == j,
            forall|k: int| 0 <= k < j ==> r@[k] == src@[k],
        decreases n - j,
    {
        r.push(src[j]);
        j = j + 1;
    }
    proof {
        assert(r@ =~= src@);
    }
    r
}

/// Copy `src[from..to]` into `dst[from..to]`.
fn copy_range<T: Copy>(dst: &mut Vec<T>, src: &Vec<T>, from: usize, to: usize)
    requires
        from <= to <= old(dst)@.len(),
        to <= src@.len(),
    ensures
        final(dst)@.len() == old(dst)@.len(),
        forall|k: int|
            0 <= k < old(dst)@.len() && !(from <= k < to) ==> final(dst)@[k] == old(dst)@[k],
        forall|k: int| from <= k < to ==> final(dst)@[k] == src@[k],
{
    let mut j: usize = from;
    while j < to
        invariant
            from <= j <= to <= dst@.len(),
            to <= src@.len(),
            dst@.len() == old(dst)@.len(),
            forall|k: int| 0 <= k < dst@.len() && !(from <= k < j) ==> dst@[k] == old(dst)@[k],
            forall|k: int| from <= k < j ==> dst@[k] == src@[k],
        decreases to - j,
    {
        dst.set(j, src[j]);
        j = j + 1;
    }
}

/// There is an occurrence of block `b` among the first `k` entries of the
/// dirty index log.
pub(crate) open spec fn logged_before(log: Seq<usize>, k: int, b: usize) -> bool {
    exists|i: int| 0 <= i < k && log[i] == b
}

/// Bit `b` of the dirty bitmap `bm`, whose bits are packed into `u128`
/// words, least significant bit first.
pub(crate) open spec fn bm_bit(bm: Seq<u128>, b: int) -> bool {
    bm[b / (DBE_BITS as int)] & (1u128 << ((b % (DBE_BITS as int)) as u128)) != 0
}

/// The dirty bitmap and the dirty index log record the same set of blocks:
/// the log holds distinct valid block indices, a valid block's bit is set
/// exactly when the block is logged, and bits past the last block stay
/// clear.
pub(crate) open spec fn bm_sync(bm: Seq<u128>, log: Seq<usize>, nblocks: int) -> bool {
    &&& log.no_duplicates()
    &&& (forall|k: int| 0 <= k < log.len() ==> (#[trigger] log[k]) < nblocks)
    &&& (forall|b: int| 0 <= b < nblocks ==> (#[trigger] bm_bit(bm, b) <==> log.contains(b as usize)))
    &&& (forall|b: int| nblocks <= b < bm.len() * (DBE_BITS as int) ==> !(#[trigger] bm_bit(bm, b)))
}

/// Splits a bit index into a word index and a bit offset, both in range.
proof fn lemma_block_word_index(b: int, wlen: int)
    requires
        0 <= b < wlen * (DBE_BITS as int),
    ensures
        0 <= b / (DBE_BITS as int) < wlen,
        0 <= b % (DBE_BITS as int) < DBE_BITS,
{
    vstd::arithmetic::div_mod::lemma_fundamental_div_mod(b, DBE_BITS as int);
    vstd::arithmetic::div_mod::lemma_mod_bound(b, DBE_BITS as int);
}

/// Mark the blocks `first..=last` dirty: for each block whose bit is still
/// clear, set the bit and append the block index to the log, so that bitmap
/// and log stay in sync and the log stays duplicate-free.
fn mark_dirty_range(
    bitmap: &mut Vec<u128>,
    log: &mut Vec<usize>,
    first: usize,
    last: usize,
    Ghost(nblocks): Ghost<int>,
)
    requires
        first <= last,
        (last as int) < nblocks <= usize::MAX,
        last < usize::MAX,
        nblocks <= old(bitmap)@.len() * (DBE_BITS as int),
        bm_sync(old(bitmap)@, old(log)@, nblocks),
    ensures
        final(bitmap)@.len() == old(bitmap)@.len(),
        bm_sync(final(bitmap)@, final(log)@, nblocks),
        forall|u: usize|
            final(log)@.contains(u) <==> (old(log)@.contains(u) || first <= u <= last),
{
    let mut blk: usize = first;
    while blk <= last
        invariant
            first <= blk <= last + 1,
            (last as int) < nblocks <= usize::MAX,
            last < usize::MAX,
            nblocks <= bitmap@.len() * (DBE_BITS as int),
            bitmap@.len() == old(bitmap)@.len(),
            bm_sync(bitmap@, log@, nblocks),
            forall|u: usize| log@.contains(u) <==> (old(log)@.contains(u) || first <= u < blk),
        decreases last + 1 - blk,
    {
        proof {
            lemma_block_word_index(blk as int, bitmap@.len() as int);
            vstd::arithmetic::div_mod::lemma_fundamental_div_mod(blk as int, DBE_BITS as int);
        }
        let word = blk / DBE_BITS;
        let bit = blk % DBE_BITS;
        let w = bitmap[word];
        let m = 1u128 << (bit as u128);
        let ghost bm0 = bitmap@;
        let ghost log0 = log@;
        if w & m == 0 {
            // The block is not dirty yet: it cannot be in the log.
            proof {
                assert(!bm_bit(bm0, blk as int));
                assert(!log0.contains(blk));
            }
            log.push(blk);
            bitmap.set(word, w | m);
            proof {
                assert(log@.no_duplicates()) by {
                    assert forall|i: int, j: int|
                        0 <= i < log@.len() && 0 <= j < log@.len() && i != j implies log@[i]
                        != log@[j] by {
                        if i < log0.len() && j < log0.len() {
                            assert(log0[i] != log0[j]);
                        } else if j == log0.len() && i < log0.len() {
                            if log@[i] == blk {
                                assert(log0[i] == blk);
                                assert(log0.contains(blk));
                            }
                        } else if i == log0.len() && j < log0.len() {
                            if log@[j] == blk {
                                assert(log0[j] == blk);
                                assert(log0.contains(blk));
                            }
                        }
                    }
                }
                assert forall|k: int| 0 <= k < log@.len() implies (#[trigger] log@[k])
                    < nblocks by {
                    if k < log0.len() {
                        assert(log@[k] == log0[k]);
                    } else {
                        assert(log@[k] == blk);
                    }
                }
                assert forall|u: usize| log@.contains(u) <==> (log0.contains(u) || u == blk) by {
                    assert(log@[log0.len() as int] == blk);
                    if log@.contains(u) {
                        let i = choose|i: int| 0 <= i < log@.len() && log@[i] == u;
                        if i < log0.len() {
                            assert(log0[i] == u);
                            assert(log0.contains(u));
                        }
                    }
                    if log0.contains(u) {
                        let i = choose|i: int| 0 <= i < log0.len() && log0[i] == u;
                        assert(log@[i] == u);
                    }
                }
                assert forall|b: int| 0 <= b < bitmap@.len() * (DBE_BITS as int) implies (bm_bit(
                    bitmap@,
                    b,
                ) <==> (bm_bit(bm0, b) || b == blk as int)) by {
                    lemma_block_word_index(b, bitmap@.len() as int);
                    vstd::arithmetic::div_mod::lemma_fundamental_div_mod(b, DBE_BITS as int);
                    if b / (DBE_BITS as int) == word as int {
                        lemma_u128_set_bit(w, bit as u128, (b % (DBE_BITS as int)) as u128);
                        if b % (DBE_BITS as int) == bit as int {
                            assert(b == blk as int);
                        }
                    } else {
                        assert(bitmap@[b / (DBE_BITS as int)] == bm0[b / (DBE_BITS as int)]);
                        assert(b != blk as int);
                    }
                }
                assert forall|b: int| 0 <= b < nblocks implies (#[trigger] bm_bit(bitmap@, b)
                    <==> log@.contains(b as usize)) by {
                    assert(bm_bit(bitmap@, b) <==> (bm_bit(bm0, b) || b == blk as int));
                    assert(log@.contains(b as usize) <==> (log0.contains(b as usize) || b as usize
                        == blk));
                    assert(b as usize == blk <==> b == blk as int);
                }
                assert forall|b: int|
                    nblocks <= b < bitmap@.len() * (DBE_BITS as int) implies !(#[trigger] bm_bit(
                    bitmap@,
                    b,
                )) by {
                    assert(bm_bit(bitmap@, b) <==> (bm_bit(bm0, b) || b == blk as int));
                    assert(b != blk as int);
                    assert(!bm_bit(bm0, b));
                }
            }
        } else {
            // The block is dirty already, hence already in the log.
            proof {
                assert(bm_bit(bm0, blk as int));
                assert(log0.contains(blk));
            }
        }
        blk = blk + 1;
    }
}

/// Memory space of an emulator: guest memory, its parallel permission
/// buffer, the bump allocator's cursor, and the dirty tracking state.
pub struct Mmu {
    /// Guest memory address space.
    memory: Vec<u8>,
    /// Permissions of the corresponding memory, one per byte.
    pub permissions: Vec<Perm>,
    /// Block indices dirtied since the last fork or reset, each once, in
    /// first-touch order.
    dirty_indexes: Vec<usize>,
    /// A bitmap over blocks mirroring `dirty_indexes`, for O(1) membership.
    dirty_bitmap: Vec<u128>,
    /// Base address of the next allocation.
    alloc_base: VAddr,
}

impl View for Mmu {
    type V = MmuView;

    closed spec fn view(&self) -> MmuView {
        MmuView {
            mem: self.memory@,
            perms: self.permissions@,
            dirty: self.dirty_indexes@.to_set(),
            alloc_base: self.alloc_base.0 as int,
        }
    }
}

impl Mmu {
    /// The internal invariant: the view is well formed, the bitmap has a
    /// bit for every block, and bitmap and log agree.
    pub closed spec fn wf(&self) -> bool {
        &&& view_wf(self@)
        &&& num_blocks(self.memory@.len() as int) <= self.dirty_bitmap@.len() * (DBE_BITS as int)
        &&& bm_sync(
            self.dirty_bitmap@,
            self.dirty_indexes@,
            num_blocks(self.memory@.len() as int),
        )
    }

    /// A well-formed memory space has a well-formed view. `wf` is opaque
    /// to callers, so this is what lets verified callers discharge the
    /// `view_wf` hypotheses of the laws in [`crate::laws`].
    pub proof fn lemma_wf_view(&self)
        requires
            self.wf(),
        ensures
            view_wf(self@),
    {
    }

    /// Create a new memory space of (at least) `size` bytes, rounded up to
    /// a whole number of dirty blocks. All bytes start zeroed, with no
    /// permissions, nothing dirty, and the allocation base at `0x0`.
    ///
    /// A capacity below one dirty block cannot satisfy the dirty-tracking
    /// invariant and is ruled out here rather than reported as a fault.
    pub fn new(size: usize) -> (r: Mmu)
        requires
            DIRTY_BLOCK_SIZE <= size,
            size + DIRTY_BLOCK_SIZE - 1 <= usize::MAX,
        ensures
            r.wf(),
            r@ == new_spec(size as int),
    {
        let t = size + (DIRTY_BLOCK_SIZE - 1);
        proof {
            vstd::arithmetic::div_mod::lemma_fundamental_div_mod(t as int, DIRTY_BLOCK_SIZE as int);
            vstd::arithmetic::div_mod::lemma_mod_bound(t as int, DIRTY_BLOCK_SIZE as int);
        }
        let aligned_size = (t / DIRTY_BLOCK_SIZE) * DIRTY_BLOCK_SIZE;
        let nblocks = aligned_size / DIRTY_BLOCK_SIZE;
        proof {
            vstd::arithmetic::div_mod::lemma_fundamental_div_mod(
                aligned_size as int,
                DIRTY_BLOCK_SIZE as int,
            );
            vstd::arithmetic::div_mod::lemma_mod_multiples_basic(
                t as int / (DIRTY_BLOCK_SIZE as int),
                DIRTY_BLOCK_SIZE as int,
            );
            vstd::arithmetic::div_mod::lemma_fundamental_div_mod(nblocks as int, DBE_BITS as int);
            vstd::arithmetic::div_mod::lemma_mod_bound(nblocks as int, DBE_BITS as int);
        }
        let bm_len = nblocks / DBE_BITS + 1;
        let r = Mmu {
            memory: fill_vec(aligned_size, 0u8),
            permissions: fill_vec(aligned_size, Perm(0)),
            dirty_indexes: Vec::new(),
            dirty_bitmap: fill_vec(bm_len, 0u128),
            alloc_base: VAddr(0),
        };
        proof {
            assert(r@.dirty =~= Set::<usize>::empty());
            assert forall|b: int|
                0 <= b < r.dirty_bitmap@.len() * (DBE_BITS as int) implies !bm_bit(
                r.dirty_bitmap@,
                b,
            ) by {
                lemma_block_word_index(b, r.dirty_bitmap@.len() as int);
                lemma_u128_bit_of_zero((b % (DBE_BITS as int)) as u128);
            }
            assert(r@ =~= new_spec(size as int));
        }
        r
    }

    /// Set the permissions of the `size`-byte range starting at `addr` to
    /// exactly `perm` (overwriting, not merging). Fails with `OutOfBounds`,
    /// and changes nothing, if the range does not fit in the buffer.
    pub fn set_permissions(&mut self, addr: VAddr, size: usize, perm: Perm) -> (r: Result<
        (),
        MmuError,
    >)
        requires
            old(self).wf(),
        ensures
            final(self).wf(),
            match r {
                Ok(()) => set_permissions_spec(old(self)@, addr.0 as int, size as int, perm)
                    == Ok::<MmuView, MmuError>(final(self)@),
                Err(e) => set_permissions_spec(old(self)@, addr.0 as int, size as int, perm)
                    == Err::<MmuView, MmuError>(e) && final(self)@ == old(self)@,
            },
    {
        let to = match addr.0.checked_add(size) {
            Some(t) => t,
            None => {
                return Err(MmuError::OutOfBounds);
            },
        };
        if to > self.permissions.len() {
            return Err(MmuError::OutOfBounds);
        }
        set_perm_range(&mut self.permissions, addr.0, to, perm);
        proof {
            assert(self@ =~= MmuView {
                perms: overwrite_perms(old(self)@.perms, addr.0 as int, size as int, perm),
                ..old(self)@
            });
        }
        Ok(())
    }

    /// Allocate a `size`-byte region. The cursor advances by the aligned
    /// length; the allocated bytes become write-only (readable only once
    /// written); the padding up to the alignment keeps its permissions.
    /// Fails with `OutOfMemory`, and changes nothing, if the aligned
    /// request does not fit in the remaining capacity.
    pub fn allocate(&mut self, size: usize) -> (r: Result<VAddr, MmuError>)
        requires
            old(self).wf(),
        ensures
            final(self).wf(),
            match r {
                Ok(a) => allocate_spec(old(self)@, size as int) == Ok::<(MmuView, int), MmuError>(
                    (final(self)@, a.0 as int),
                ),
                Err(e) => allocate_spec(old(self)@, size as int) == Err::<(MmuView, int), MmuError>(
                    e,
                ) && final(self)@ == old(self)@,
            },
    {
        proof {
            lemma_align_spec_bounds(size as int);
        }
        let aligned = match checked_align(size) {
            Some(a) => a,
            None => {
                return Err(MmuError::OutOfMemory);
            },
        };
        let cur = self.alloc_base.0;
        let next = match cur.checked_add(aligned) {
            Some(n) => n,
            None => {
                return Err(MmuError::OutOfMemory);
            },
        };
        if next > self.memory.len() {
            return Err(MmuError::OutOfMemory);
        }
        set_perm_range(&mut self.permissions, cur, cur + size, Perm(PERM_WRITE));
        self.alloc_base = VAddr(next);
        proof {
            assert(self@ =~= MmuView {
                perms: overwrite_perms(old(self)@.perms, cur as int, size as int, Perm(PERM_WRITE)),
                alloc_base: cur + align_spec(size as int),
                ..old(self)@
            });
        }
        Ok(VAddr(cur))
    }

    /// Write the bytes of `buf` to memory at `addr`. Fails, changing
    /// nothing, with `OutOfBounds` if the range does not fit in the buffer
    /// (including on address overflow) and with `PermissionFault` if any
    /// byte of the range lacks `PERM_WRITE`. On success the bytes are
    /// copied in, every byte of the range additionally becomes readable
    /// (written memory is initialized), and every block the range
    /// intersects is marked dirty.
    pub fn write(&mut self, addr: VAddr, buf: &[u8]) -> (r: Result<(), MmuError>)
        requires
            old(self).wf(),
        ensures
            final(self).wf(),
            match r {
                Ok(()) => write_spec(old(self)@, addr.0 as int, buf@) == Ok::<MmuView, MmuError>(
                    final(self)@,
                ),
                Err(e) => write_spec(old(self)@, addr.0 as int, buf@) == Err::<MmuView, MmuError>(
                    e,
                ) && final(self)@ == old(self)@,
            },
    {
        let ghost v0 = old(self)@;
        let from = addr.0;
        let to = match from.checked_add(buf.len()) {
            Some(t) => t,
            None => {
                return Err(MmuError::OutOfBounds);
            },
        };
        if to > self.memory.len() {
            return Err(MmuError::OutOfBounds);
        }
        if !check_perm_bits(&self.permissions, from, to, PERM_WRITE) {
            return Err(MmuError::PermissionFault);
        }
        copy_from_slice_range(&mut self.memory, from, buf);
        let ghost nblocks = num_blocks(v0.mem.len() as int);
        if buf.len() > 0 {
            proof {
                let b = DIRTY_BLOCK_SIZE as int;
                let len = v0.mem.len() as int;
                vstd::arithmetic::div_mod::lemma_fundamental_div_mod(len, b);
                vstd::arithmetic::div_mod::lemma_fundamental_div_mod_converse_div(
                    len - 1,
                    b,
                    nblocks - 1,
                    b - 1,
                );
                vstd::arithmetic::div_mod::lemma_div_is_ordered(to as int - 1, len - 1, b);
                vstd::arithmetic::div_mod::lemma_div_is_ordered(from as int, to as int - 1, b);
                vstd::arithmetic::div_mod::lemma_div_pos_is_pos(from as int, b);
            }
            let first = from / DIRTY_BLOCK_SIZE;
            let last = (to - 1) / DIRTY_BLOCK_SIZE;
            mark_dirty_range(
                &mut self.dirty_bitmap,
                &mut self.dirty_indexes,
                first,
                last,
                Ghost(nblocks),
            );
        }
        or_perm_range(&mut self.permissions, from, to, PERM_READ);
        proof {
            broadcast use vstd::seq_lib::seq_to_set_is_finite;

            let a = from as int;
            let len = buf@.len() as int;
            assert(crate::model::in_bounds(v0, a, len));
            assert(crate::model::writable(v0, a, len));
            let wv = match write_spec(v0, a, buf@) {
                Ok(wv) => wv,
                Err(_) => arbitrary(),
            };
            assert(self@.mem =~= wv.mem);
            assert(self@.perms =~= wv.perms);
            assert forall|u: usize| self@.dirty.contains(u) <==> wv.dirty.contains(u) by {
                if len > 0 {
                    assert(self.dirty_indexes@.contains(u) <==> (old(
                        self,
                    ).dirty_indexes@.contains(u) || a / (DIRTY_BLOCK_SIZE as int) <= u <= (a + len
                        - 1) / (DIRTY_BLOCK_SIZE as int)));
                }
            }
            assert(self@.dirty =~= wv.dirty);
            assert(self@ =~= wv);
            assert forall|u: usize| #[trigger] self@.dirty.contains(u) implies u < nblocks by {
                assert(self.dirty_indexes@.contains(u));
                let k = choose|k: int|
                    0 <= k < self.dirty_indexes@.len() && self.dirty_indexes@[k] == u;
                assert(self.dirty_indexes@[k] < nblocks);
            }
        }
        Ok(())
    }

    /// Read `len` bytes from memory at `addr`. Fails with `OutOfBounds` if
    /// the range does not fit in the buffer (including on address overflow)
    /// and with `PermissionFault` if any byte of the range lacks
    /// `PERM_READ` — in particular, memory that was allocated but never
    /// written is unreadable. Reading changes no state.
    pub fn read(&self, addr: VAddr, len: usize) -> (r: Result<Vec<u8>, MmuError>)
        requires
            self.wf(),
        ensures
            match r {
                Ok(bytes) => read_spec(self@, addr.0 as int, len as int) == Ok::<Seq<u8>, MmuError>(
                    bytes@,
                ),
                Err(e) => read_spec(self@, addr.0 as int, len as int) == Err::<Seq<u8>, MmuError>(
                    e,
                ),
            },
    {
        let from = addr.0;
        let to = match from.checked_add(len) {
            Some(t) => t,
            None => {
                return Err(MmuError::OutOfBounds);
            },
        };
        if to > self.memory.len() {
            return Err(MmuError::OutOfBounds);
        }
        if !check_perm_bits(&self.permissions, from, to, PERM_READ) {
            return Err(MmuError::PermissionFault);
        }
        Ok(read_range(&self.memory, from, to))
    }

    /// Fork the memory space: a new, independent space whose data and
    /// permissions are byte-for-byte copies of this one, with the same
    /// allocation base and with all dirty state cleared. After the fork the
    /// two spaces share no mutable state.
    pub fn fork(&self) -> (r: Mmu)
        requires
            self.wf(),
        ensures
            r.wf(),
            r@ == fork_spec(self@),
    {
        let bm_len = self.dirty_bitmap.len();
        let r = Mmu {
            memory: clone_vec(&self.memory),
            permissions: clone_vec(&self.permissions),
            dirty_indexes: Vec::new(),
            dirty_bitmap: fill_vec(bm_len, 0u128),
            alloc_base: self.alloc_base,
        };
        proof {
            assert(r@.dirty =~= Set::<usize>::empty());
            assert forall|b: int|
                0 <= b < r.dirty_bitmap@.len() * (DBE_BITS as int) implies !bm_bit(
                r.dirty_bitmap@,
                b,
            ) by {
                lemma_block_word_index(b, r.dirty_bitmap@.len() as int);
                lemma_u128_bit_of_zero((b % (DBE_BITS as int)) as u128);
            }
            assert(r@ =~= fork_spec(self@));
        }
        r
    }

    /// Restore this memory space to the state of `other` on every block
    /// dirtied since the last fork or reset, overwriting both data and
    /// permissions, then clear the dirty state. Blocks that were never
    /// dirtied are left untouched; the allocation base is kept. The cost is
    /// proportional to the number of dirtied blocks, not to the size of the
    /// space.
    ///
    /// `other` must be a space of the same capacity — typically the
    /// baseline this one was forked from — and, per the single-owner model,
    /// must not be mutated while the reset runs (the shared borrow enforces
    /// this within one thread of ownership).
    #[verifier::loop_isolation(false)]
    pub fn reset(&mut self, other: &Mmu)
        requires
            old(self).wf(),
            other.wf(),
            old(self)@.mem.len() == other@.mem.len(),
        ensures
            final(self).wf(),
            final(self)@ == reset_spec(old(self)@, other@),
    {
        let ghost v0 = old(self)@;
        let ghost log = old(self).dirty_indexes@;
        let ghost nblocks = num_blocks(v0.mem.len() as int);
        proof {
            vstd::arithmetic::div_mod::lemma_fundamental_div_mod(
                v0.mem.len() as int,
                DIRTY_BLOCK_SIZE as int,
            );
            assert(0 <= nblocks <= usize::MAX);
        }
        let n = self.dirty_indexes.len();
        let mut k: usize = 0;
        while k < n
            invariant
                k <= n,
                self.dirty_indexes@ == log,
                self.alloc_base == old(self).alloc_base,
                self.memory@.len() == v0.mem.len(),
                self.permissions@.len() == v0.perms.len(),
                self.dirty_bitmap@.len() == old(self).dirty_bitmap@.len(),
                forall|j: int|
                    0 <= j < v0.mem.len() ==> #[trigger] self.memory@[j] == (if logged_before(
                        log,
                        k as int,
                        block_of(j) as usize,
                    ) {
                        other@.mem[j]
                    } else {
                        v0.mem[j]
                    }),
                forall|j: int|
                    0 <= j < v0.perms.len() ==> #[trigger] self.permissions@[j] == (
                    if logged_before(log, k as int, block_of(j) as usize) {
                        other@.perms[j]
                    } else {
                        v0.perms[j]
                    }),
                forall|b: int|
                    0 <= b < nblocks ==> (#[trigger] bm_bit(self.dirty_bitmap@, b) <==> (
                    log.contains(b as usize) && !logged_before(log, k as int, b as usize))),
                forall|b: int|
                    nblocks <= b < self.dirty_bitmap@.len() * (DBE_BITS as int) ==> !(
                    #[trigger] bm_bit(self.dirty_bitmap@, b)),
            decreases n - k,
        {
            let blk = self.dirty_indexes[k];
            proof {
                assert(log[k as int] < nblocks);
                lemma_block_word_index(blk as int, self.dirty_bitmap@.len() as int);
                vstd::arithmetic::div_mod::lemma_fundamental_div_mod(blk as int, DBE_BITS as int);
            }
            let from = blk * DIRTY_BLOCK_SIZE;
            let to = from + DIRTY_BLOCK_SIZE;
            // Clear the block's bit in the bitmap.
            let word = blk / DBE_BITS;
            let bit = blk % DBE_BITS;
            let w = self.dirty_bitmap[word];
            let ghost bm0 = self.dirty_bitmap@;
            self.dirty_bitmap.set(word, w & !(1u128 << (bit as u128)));
            // Restore the block's data and permissions from the baseline.
            copy_range(&mut self.memory, &other.memory, from, to);
            copy_range(&mut self.permissions, &other.permissions, from, to);
            proof {
                assert(nblocks <= bm0.len() * (DBE_BITS as int));
                assert forall|b: int|
                    0 <= b < bm0.len() * (DBE_BITS as int) implies (#[trigger] bm_bit(
                    self.dirty_bitmap@,
                    b,
                ) <==> (bm_bit(bm0, b) && b != blk as int)) by {
                    lemma_block_word_index(b, bm0.len() as int);
                    vstd::arithmetic::div_mod::lemma_fundamental_div_mod(b, DBE_BITS as int);
                    if b / (DBE_BITS as int) == word as int {
                        lemma_u128_clear_bit(w, bit as u128, (b % (DBE_BITS as int)) as u128);
                        if b % (DBE_BITS as int) == bit as int {
                            assert(b == blk as int);
                        }
                    } else {
                        assert(self.dirty_bitmap@[b / (DBE_BITS as int)] == bm0[b / (DBE_BITS
                            as int)]);
                        assert(b != blk as int);
                    }
                }
                assert forall|b: usize|
                    logged_before(log, k + 1, b) <==> (logged_before(log, k as int, b) || b
                        == log[k as int]) by {
                    if logged_before(log, k + 1, b) {
                        let i = choose|i: int| 0 <= i < k + 1 && log[i] == b;
                        if i < k {
                            assert(logged_before(log, k as int, b));
                        }
                    }
                    if logged_before(log, k as int, b) {
                        let i = choose|i: int| 0 <= i < k && log[i] == b;
                        assert(0 <= i < k + 1 && log[i] == b);
                    }
                    if b == log[k as int] {
                        assert(0 <= k < k + 1 && log[k as int] == b);
                    }
                }
                assert forall|j: int| 0 <= j < v0.mem.len() implies (block_of(j) == blk as int
                    <==> from <= j < to) by {
                    vstd::arithmetic::div_mod::lemma_fundamental_div_mod(j, DIRTY_BLOCK_SIZE as int);
                    vstd::arithmetic::div_mod::lemma_mod_bound(j, DIRTY_BLOCK_SIZE as int);
                    if from <= j < to {
                        vstd::arithmetic::div_mod::lemma_fundamental_div_mod_converse_div(
                            j,
                            DIRTY_BLOCK_SIZE as int,
                            blk as int,
                            j - from,
                        );
                    }
                }
                // A block is processed at most once: `blk` is not among the
                // first `k` log entries.
                assert(!logged_before(log, k as int, blk)) by {
                    if logged_before(log, k as int, blk) {
                        let i = choose|i: int| 0 <= i < k && log[i] == blk;
                        assert(log[i] == log[k as int]);
                    }
                }
                assert forall|b: int| 0 <= b < nblocks implies (#[trigger] bm_bit(
                    self.dirty_bitmap@,
                    b,
                ) <==> (log.contains(b as usize) && !logged_before(log, k + 1, b as usize))) by {
                    assert(bm_bit(self.dirty_bitmap@, b) <==> (bm_bit(bm0, b) && b != blk as int));
                    assert(logged_before(log, k + 1, b as usize) <==> (logged_before(
                        log,
                        k as int,
                        b as usize,
                    ) || b as usize == log[k as int]));
                    assert(b as usize == blk <==> b == blk as int);
                }
                assert forall|b: int|
                    nblocks <= b < self.dirty_bitmap@.len() * (DBE_BITS as int) implies !(
                #[trigger] bm_bit(self.dirty_bitmap@, b)) by {
                    assert(bm_bit(self.dirty_bitmap@, b) <==> (bm_bit(bm0, b) && b != blk as int));
                    assert(!bm_bit(bm0, b));
                }
            }
            k = k + 1;
        }
        self.dirty_indexes.clear();
        proof {
            assert forall|b: usize| #[trigger] log.contains(b) implies logged_before(
                log,
                n as int,
                b,
            ) by {
            }
            assert(self@.dirty =~= Set::<usize>::empty());
            assert(self@.mem =~= reset_spec(v0, other@).mem);
            assert(self@.perms =~= reset_spec(v0, other@).perms);
            assert(self@ =~= reset_spec(v0, other@));
        }
    }

    /// How many distinct blocks have been dirtied since the last fork or
    /// reset.
    pub fn dirty_block_count(&self) -> (n: usize)
        requires
            self.wf(),
        ensures
            n == self@.dirty.len(),
    {
        proof {
            self.dirty_indexes@.unique_seq_to_set();
        }
        self.dirty_indexes.len()
    }
}

} // verus!

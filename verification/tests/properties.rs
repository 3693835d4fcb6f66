use soft_mmu::emu::Emulator;
use soft_mmu::mmu::{align, Mmu, MmuError, Perm, VAddr, DIRTY_BLOCK_SIZE, PERM_READ};

#[test]
fn align_exact_values() {
    assert_eq!(align(0), 0);
    assert_eq!(align(1), 16);
    assert_eq!(align(16), 16);
    assert_eq!(align(17), 32);
    assert_eq!(align(100), 112);
    assert_eq!(align(4081), 4096);
}

#[test]
fn allocations_within_bounds_and_disjoint() {
    let mut mem = Mmu::new(DIRTY_BLOCK_SIZE);
    let a = mem.allocate(100).unwrap();
    let b = mem.allocate(100).unwrap();
    assert_eq!(a, VAddr(0));
    assert_eq!(b, VAddr(112)); // 100 rounded up to the 16-byte alignment
    assert!(a.0 + 100 <= DIRTY_BLOCK_SIZE);
    assert!(b.0 + 100 <= DIRTY_BLOCK_SIZE);
    assert!(a.0 + 100 <= b.0); // the ranges do not overlap
}

#[test]
fn failed_allocation_keeps_cursor() {
    let mut mem = Mmu::new(DIRTY_BLOCK_SIZE);
    mem.allocate(4000).unwrap(); // cursor at 4000 (4000 is 16-aligned)
    // One byte too many after alignment: 4000 + 112 > 4096.
    let e = mem.allocate(100).unwrap_err();
    assert_eq!(e, MmuError::OutOfMemory);
    // The failure left the cursor untouched: a fitting request still
    // starts at 4000.
    let a = mem.allocate(96).unwrap();
    assert_eq!(a, VAddr(4000));
}

#[test]
fn write_without_permission_faults() {
    let mut mem = Mmu::new(DIRTY_BLOCK_SIZE);
    // Never allocated nor explicitly permissioned: a permission fault,
    // distinguishable from out-of-bounds.
    assert_eq!(mem.write(VAddr(0), b"x").unwrap_err(), MmuError::PermissionFault);
    assert_eq!(mem.write(VAddr(DIRTY_BLOCK_SIZE), b"x").unwrap_err(), MmuError::OutOfBounds);
    // Address arithmetic that would overflow is a fault, not a wrap.
    assert_eq!(mem.write(VAddr(usize::MAX), b"xy").unwrap_err(), MmuError::OutOfBounds);
}

#[test]
fn out_of_bounds_reads_and_permission_ranges() {
    let mut mem = Mmu::new(DIRTY_BLOCK_SIZE);
    assert_eq!(mem.read(VAddr(DIRTY_BLOCK_SIZE - 6), 100).unwrap_err(), MmuError::OutOfBounds);
    assert_eq!(mem.read(VAddr(usize::MAX), 2).unwrap_err(), MmuError::OutOfBounds);
    assert_eq!(
        mem.set_permissions(VAddr(0), DIRTY_BLOCK_SIZE + 1, Perm(PERM_READ)).unwrap_err(),
        MmuError::OutOfBounds
    );
}

#[test]
fn write_read_round_trip_exact_bytes() {
    let mut mem = Mmu::new(DIRTY_BLOCK_SIZE);
    mem.allocate(64).unwrap();
    mem.write(VAddr(7), b"xyz").unwrap();
    assert_eq!(mem.read(VAddr(7), 3).unwrap(), b"xyz".to_vec());
}

#[test]
fn uninitialized_read_faults() {
    let mut mem = Mmu::new(DIRTY_BLOCK_SIZE);
    let base = mem.allocate(64).unwrap();
    // Allocated but never written: reading byte 0 is a permission fault.
    assert_eq!(mem.read(base, 1).unwrap_err(), MmuError::PermissionFault);
    // After a write the same byte reads fine.
    mem.write(base, b"a").unwrap();
    assert_eq!(mem.read(base, 1).unwrap(), b"a".to_vec());
}

#[test]
fn fork_then_reset_is_noop() {
    let mut orig = Mmu::new(2 * DIRTY_BLOCK_SIZE);
    orig.allocate(100).unwrap();
    orig.write(VAddr(0), b"hello").unwrap();
    let mut fork = orig.fork();
    fork.reset(&orig);
    // Permissions and readable bytes equal the source's, byte for byte.
    assert!(fork.permissions == orig.permissions);
    let a = fork.read(VAddr(0), 5).unwrap();
    let b = orig.read(VAddr(0), 5).unwrap();
    assert_eq!(a, b);
    assert_eq!(a, b"hello".to_vec());
}

#[test]
fn dirty_count_is_per_block_not_per_write() {
    let mut mem = Mmu::new(4 * DIRTY_BLOCK_SIZE);
    mem.allocate(4 * DIRTY_BLOCK_SIZE).unwrap();
    assert_eq!(mem.dirty_block_count(), 0);
    mem.write(VAddr(10), &[1u8; 100]).unwrap();
    mem.write(VAddr(50), &[2u8; 10]).unwrap(); // same block again
    assert_eq!(mem.dirty_block_count(), 1);
    // A write that straddles the block 1 / block 2 boundary dirties both.
    mem.write(VAddr(2 * DIRTY_BLOCK_SIZE - 8), &[3u8; 16]).unwrap();
    assert_eq!(mem.dirty_block_count(), 3);
    // An empty write touches no block.
    mem.write(VAddr(3 * DIRTY_BLOCK_SIZE), &[]).unwrap();
    assert_eq!(mem.dirty_block_count(), 3);
}

#[test]
fn snapshot_scenario_megabyte_space() {
    let mut orig = Mmu::new(1024 * 1024);
    let base = orig.allocate(512 * 1024 + 27).unwrap();
    assert_eq!(base, VAddr(0));
    let msg: &[u8] = b"abcdefghijklmnopqrstuvwxyz!";
    assert_eq!(msg.len(), 27);

    let mut fork = orig.fork();
    let offsets = [0x0usize, 0x10, 128 * 1024, 256 * 1024, 350 * 1024];
    for &o in offsets.iter() {
        fork.write(VAddr(o), msg).unwrap();
    }
    // 0x0 and 0x10 fall in the same block: four distinct blocks, not five.
    assert_eq!(fork.dirty_block_count(), 4);
    // The write at 0x10 overlapped the tail of the one at 0x0.
    let r0 = fork.read(VAddr(0), 27).unwrap();
    assert_eq!(&r0[0..16], &msg[0..16]);
    assert_eq!(&r0[16..27], &msg[0..11]);
    for &o in offsets[1..].iter() {
        assert_eq!(fork.read(VAddr(o), 27).unwrap(), msg.to_vec());
    }

    fork.reset(&orig);
    assert_eq!(fork.dirty_block_count(), 0);
    for &o in offsets.iter() {
        // Reset reverted data and permissions: the fork faults exactly as
        // the never-written original does.
        assert_eq!(fork.read(VAddr(o), 27).unwrap_err(), MmuError::PermissionFault);
        assert_eq!(orig.read(VAddr(o), 27).unwrap_err(), MmuError::PermissionFault);
    }
    assert!(fork.permissions == orig.permissions);
}

#[test]
fn set_permissions_overwrites_and_revokes_write() {
    let mut mem = Mmu::new(DIRTY_BLOCK_SIZE);
    let base = mem.allocate(64).unwrap();
    mem.write(base, b"data").unwrap();
    assert!(mem.read(base, 4).is_ok());
    // Overwrite (not merge) with a read-only permission.
    mem.set_permissions(base, 64, Perm(PERM_READ)).unwrap();
    // The range is still readable but writing it now faults.
    assert_eq!(mem.write(base, b"data").unwrap_err(), MmuError::PermissionFault);
    assert_eq!(mem.read(base, 4).unwrap(), b"data".to_vec());
}

#[test]
fn capacity_rounds_up_to_whole_blocks() {
    let mem = Mmu::new(DIRTY_BLOCK_SIZE + 1);
    // The last byte of the second block exists (permission fault, not
    // out-of-bounds)...
    assert_eq!(
        mem.read(VAddr(2 * DIRTY_BLOCK_SIZE - 1), 1).unwrap_err(),
        MmuError::PermissionFault
    );
    // ...and the byte after it does not.
    assert_eq!(mem.read(VAddr(2 * DIRTY_BLOCK_SIZE), 1).unwrap_err(), MmuError::OutOfBounds);
}

#[test]
fn empty_operations() {
    let mut mem = Mmu::new(DIRTY_BLOCK_SIZE);
    // An empty write needs no permission and dirties nothing.
    mem.write(VAddr(100), &[]).unwrap();
    assert_eq!(mem.dirty_block_count(), 0);
    // An empty read needs no permission.
    assert_eq!(mem.read(VAddr(0), 0).unwrap(), Vec::<u8>::new());
    // An empty allocation returns the cursor and does not advance it.
    let a = mem.allocate(0).unwrap();
    let b = mem.allocate(0).unwrap();
    assert_eq!(a, b);
}

#[test]
fn emulator_fork_copies_memory() {
    let mut emu = Emulator::new(DIRTY_BLOCK_SIZE);
    let base = emu.memory.allocate(16).unwrap();
    emu.memory.write(base, b"state").unwrap();
    let fork = emu.fork();
    assert!(fork.memory.permissions == emu.memory.permissions);
    assert_eq!(fork.memory.read(base, 5).unwrap(), b"state".to_vec());
    assert_eq!(fork.memory.dirty_block_count(), 0);
}

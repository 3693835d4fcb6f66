use soft_mmu::mmu::{Mmu, VAddr, DIRTY_BLOCK_SIZE};

const MSG: &[u8] = b"This is some text that is written into the memory.";

#[test]
fn byte_perfect_allocation() {
    let mut mem = Mmu::new(DIRTY_BLOCK_SIZE);
    mem.allocate(MSG.len()).unwrap();
}

#[test]
#[should_panic]
fn out_of_memory() {
    let mut mem = Mmu::new(DIRTY_BLOCK_SIZE);
    mem.allocate(1024).unwrap(); // OK
    mem.allocate(1024).unwrap(); // OK
    mem.allocate(1024).unwrap(); // OK
    mem.allocate(1024).unwrap(); // OK
    mem.allocate(1).unwrap(); // PANIC
}

#[test]
fn read_write() {
    let mut mem = Mmu::new(DIRTY_BLOCK_SIZE);
    mem.allocate(MSG.len()).unwrap();
    mem.write(VAddr(0x0), MSG).unwrap();
    let buf = mem.read(VAddr(0x0), MSG.len()).unwrap();
    assert!(buf[0..MSG.len()] == *MSG);
}

#[test]
#[should_panic]
fn read_uninitialized_memory() {
    let mem = Mmu::new(DIRTY_BLOCK_SIZE);
    mem.read(VAddr(0x0), MSG.len()).unwrap();
}

#[test]
#[should_panic]
fn write_unallocated_memory() {
    let mut mem = Mmu::new(DIRTY_BLOCK_SIZE);
    mem.write(VAddr(0x0), MSG).unwrap();
}

#[test]
#[should_panic]
fn reset_permissions() {
    let mut mem = Mmu::new(DIRTY_BLOCK_SIZE);
    let base = mem.allocate(DIRTY_BLOCK_SIZE).unwrap();
    {
        let mut buf = [0; DIRTY_BLOCK_SIZE];
        let mut new_mem = mem.fork();

        // Here we write to the memory, so we set `PERM_READ`.
        // Consecutive read operations shouldn't panic.
        assert!(new_mem.write(base, &buf).is_ok());
        assert!(new_mem.read(base, buf.len()).is_ok());

        // When the memory is reset, permissions are reset as well.
        // Since we haven't written to the memory yet, we can't read it.
        new_mem.reset(&mem);
        new_mem.read(base, buf.len()).unwrap();
    }
}

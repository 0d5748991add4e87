use revproc1::{Access, MemOp, TreeMemory};

#[test]
fn create_memory() {
    let _mem = TreeMemory::new();
}

#[test]
fn check_io() {
    let mut mem = TreeMemory::new();
    let mut some_data: Vec<u64> = vec![2, 34, 67, 0x898, 0x12345678];
    mem.iop(0, &mut some_data, MemOp::Write);
    let mut other_data: Vec<u64> = vec![0; 16];
    mem.iop(0, &mut other_data, MemOp::Read);
    assert_eq!(some_data, other_data[0..some_data.len()]);
}

#[test]
fn check_interface() {
    let mut mem = TreeMemory::new();
    let mut data_out = vec![238];
    mem.iop(0, &mut data_out, MemOp::Write);
    let mut data_out2 = vec![45678];
    mem.iop(0, &mut data_out2, MemOp::Write);
    assert_eq!(mem.read_64(0), 45678);
    let data_out3 = vec![12345];
    mem.write(0, &data_out3);
    assert_eq!(mem.read_64(0), 12345);

    mem.write_64(0, 0x45788);
    let mut data_in = vec![0];
    mem.iop(0, &mut data_in, MemOp::Read);
    assert_eq!(data_in[0], 0x45788);
    assert_eq!(mem.read_64(0), 0x45788);
    mem.write_64(0x12345678u64, 42);
    assert_eq!(mem.read_64(0), 0x45788);
    assert_eq!(mem.read_64(0x12345678u64), 42);
    assert_eq!(mem.read_64(1), 0);
}

#[test]
fn example_scenario() {
    let mut mem = TreeMemory::new();
    mem.write_64(0, 45678);
    assert_eq!(mem.read_64(0), 45678);
    mem.write_64(0x12345678, 42);
    assert_eq!(mem.read_64(0), 45678);
    assert_eq!(mem.read_64(0x12345678), 42);
    assert_eq!(mem.read_64(1), 0);
}

#[test]
fn write_then_read_gives_data_back() {
    let mut mem = TreeMemory::new();
    let data: Vec<u64> = vec![9, 8, 7, 6, 5, 4, 3];
    mem.write(0x7777_0000_0000_0100, &data);
    assert_eq!(mem.read(0x7777_0000_0000_0100, 7), data);
    assert_eq!(mem.read(0x7777_0000_0000_0102, 2), vec![7, 6]);
}

#[test]
fn write_leaves_other_addresses_alone() {
    let mut mem = TreeMemory::new();
    mem.write(100, &vec![1, 2, 3]);
    mem.write(103, &vec![4]);
    mem.write(98, &vec![5, 6]);
    assert_eq!(mem.read(96, 10), vec![0, 0, 5, 6, 1, 2, 3, 4, 0, 0]);
    mem.write(0x10000 + 100, &vec![77]);
    assert_eq!(mem.read(100, 1), vec![1]);
    assert_eq!(mem.read(0x10000 + 100, 1), vec![77]);
}

#[test]
fn unmapped_read_gives_zero() {
    let mut mem = TreeMemory::new();
    let mut buf: Vec<u64> = vec![11, 22, 33];
    mem.iop(0x4000_0000, &mut buf, MemOp::Read);
    assert_eq!(buf, vec![0, 0, 0]);
    assert!(!mem.is_mapped(0x4000_0000));
}

#[test]
fn storage_is_allocated_on_first_write_only() {
    let mut mem = TreeMemory::new();
    assert!(!mem.is_mapped(0));
    assert!(!mem.is_mapped(0x0123_4567_89ab_cdef));
    assert_eq!(mem.read_64(0x0123_4567_89ab_cdef), 0);
    assert!(!mem.is_mapped(0x0123_4567_89ab_cdef));
    mem.write_64(0x0123_4567_89ab_cdef, 5);
    assert!(mem.is_mapped(0x0123_4567_89ab_0000));
    assert!(mem.is_mapped(0x0123_4567_89ab_ffff));
    assert!(!mem.is_mapped(0x0123_4567_89ac_0000));
    assert!(!mem.is_mapped(0x0123_4567_89aa_ffff));
    assert!(!mem.is_mapped(0));
}

#[test]
fn second_write_to_leaf_reuses_it() {
    let mut mem = TreeMemory::new();
    mem.write_64(0x5000_0000_0001_0000, 1);
    mem.write_64(0x5000_0000_0001_fff0, 2);
    assert!(mem.is_mapped(0x5000_0000_0001_8000));
    assert!(!mem.is_mapped(0x5000_0000_0002_0000));
    assert_eq!(mem.read_64(0x5000_0000_0001_0000), 1);
    assert_eq!(mem.read_64(0x5000_0000_0001_fff0), 2);
}

#[test]
fn boundary_addresses() {
    let mut mem = TreeMemory::new();
    mem.write_64(0, 1);
    mem.write_64(u64::MAX, 2);
    mem.write_64(0xffff, 3);
    mem.write_64(0x1_0000, 4);
    mem.write_64(0x0fff_ffff, 5);
    mem.write_64(0x1000_0000, 6);
    mem.write_64(0x0000_ffff_ffff_ffff, 7);
    mem.write_64(0x0001_0000_0000_0000, 8);
    mem.write_64(0x000f_ffff_ffff_ffff, 9);
    mem.write_64(0x0010_0000_0000_0000, 10);
    assert_eq!(mem.read_64(0), 1);
    assert_eq!(mem.read_64(u64::MAX), 2);
    assert_eq!(mem.read_64(0xffff), 3);
    assert_eq!(mem.read_64(0x1_0000), 4);
    assert_eq!(mem.read_64(0x0fff_ffff), 5);
    assert_eq!(mem.read_64(0x1000_0000), 6);
    assert_eq!(mem.read_64(0x0000_ffff_ffff_ffff), 7);
    assert_eq!(mem.read_64(0x0001_0000_0000_0000), 8);
    assert_eq!(mem.read_64(0x000f_ffff_ffff_ffff), 9);
    assert_eq!(mem.read_64(0x0010_0000_0000_0000), 10);
    assert_eq!(mem.read_64(u64::MAX - 1), 0);
    assert_eq!(mem.read_64(0xfffe), 0);
    assert!(mem.is_mapped(u64::MAX - 0xffff));
    assert!(!mem.is_mapped(u64::MAX - 0x1_0000));
}

#[test]
fn request_filling_the_last_leaf() {
    let mut mem = TreeMemory::new();
    let data: Vec<u64> = (0..0x1_0000u64).collect();
    mem.write(0xffff_ffff_ffff_0000, &data);
    assert_eq!(mem.read(0xffff_ffff_ffff_0000, 0x1_0000), data);
    assert_eq!(mem.read_64(u64::MAX), 0xffff);
    assert_eq!(mem.read_64(0xffff_ffff_fffe_ffff), 0);
}

#[test]
fn other_layouts() {
    let mut small = TreeMemory::with_layout(8, 7, 8);
    small.write(0x0102_0304_0506_07f0, &vec![1, 2, 3]);
    assert_eq!(small.read(0x0102_0304_0506_07ef, 5), vec![0, 1, 2, 3, 0]);
    assert!(!small.is_mapped(0x0102_0304_0506_0800));
    assert_eq!(small.read_64(0x0102_0304_0506_08f0), 0);

    let mut deep = TreeMemory::with_layout(1, 60, 4);
    deep.write_64(0x8000_0000_0000_0003, 33);
    assert_eq!(deep.read_64(0x8000_0000_0000_0003), 33);
    assert_eq!(deep.read_64(0x0000_0000_0000_0003), 0);
    assert!(deep.is_mapped(0x8000_0000_0000_000f));
    assert!(!deep.is_mapped(0x8000_0000_0000_0010));
}

#[test]
fn request_must_stay_in_one_leaf() {
    let mem = TreeMemory::new();
    assert!(mem.request_fits(0, 0x1_0000));
    assert!(!mem.request_fits(0, 0x1_0001));
    assert!(mem.request_fits(0xfff0, 16));
    assert!(!mem.request_fits(0xfff0, 17));
    assert!(mem.request_fits(u64::MAX, 1));
    assert!(!mem.request_fits(u64::MAX, 2));
    assert!(mem.request_fits(u64::MAX, 0));
}

#[test]
fn disjoint_writes_commute() {
    let mut first = TreeMemory::new();
    first.write(0x10, &vec![1, 2]);
    first.write(0x2_0000, &vec![3]);
    let mut second = TreeMemory::new();
    second.write(0x2_0000, &vec![3]);
    second.write(0x10, &vec![1, 2]);
    assert_eq!(first.read(0x10, 2), second.read(0x10, 2));
    assert_eq!(first.read(0x2_0000, 1), second.read(0x2_0000, 1));
    assert_eq!(first.read(0x10, 2), vec![1, 2]);
    assert_eq!(first.is_mapped(0x2_0000), second.is_mapped(0x2_0000));
    assert_eq!(first.is_mapped(0x1_0000), second.is_mapped(0x1_0000));
    assert!(!first.is_mapped(0x1_0000));
}

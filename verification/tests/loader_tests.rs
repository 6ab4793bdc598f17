use mikan_os::loader::{plan_kernel_load, plan_load, read_kernel_elf, CopyStep, LoadSegment, LoaderError, PT_LOAD};

fn seg(p_type: u32, off: u64, vaddr: u64, filesz: u64, memsz: u64) -> LoadSegment {
    LoadSegment { p_type, p_offset: off, p_vaddr: vaddr, p_filesz: filesz, p_memsz: memsz }
}

#[test]
fn plan_spans_load_segments() {
    let segs = [
        seg(6, 0x40, 0x100040, 0x100, 0x100),
        seg(PT_LOAD, 0, 0x100000, 0x1a0, 0x1a0),
        seg(PT_LOAD, 0x1000, 0x101000, 0x200, 0x1200),
    ];
    let plan = plan_load(0x2000, 0x100080, &segs).unwrap();
    assert_eq!(plan.min_addr, 0x100000);
    assert_eq!(plan.max_addr, 0x102200);
    assert_eq!(plan.kernel_mem_size, 0x2200);
    assert_eq!(plan.num_pages, 3);
    assert_eq!(plan.entry_point, 0x100080);
    assert_eq!(
        plan.copies,
        vec![
            CopyStep { dest: 0x100000, src_offset: 0, copy_len: 0x1a0, zero_len: 0 },
            CopyStep { dest: 0x101000, src_offset: 0x1000, copy_len: 0x200, zero_len: 0x1000 },
        ]
    );
}

#[test]
fn exact_page_multiple_is_not_rounded_up() {
    let plan = plan_load(0x3000, 0, &[seg(PT_LOAD, 0, 0x200000, 0x3000, 0x3000)]).unwrap();
    assert_eq!(plan.num_pages, 3);
}

#[test]
fn pages_cover_cleared_bytes() {
    let plan = plan_load(0x100, 0x100000, &[seg(PT_LOAD, 0, 0x100000, 0x100, 0x2000)]).unwrap();
    assert_eq!(plan.max_addr, 0x102000);
    assert_eq!(plan.num_pages, 2);
    let step = plan.copies[0];
    assert!(step.dest + step.copy_len + step.zero_len <= plan.min_addr + plan.num_pages * 0x1000);
}

#[test]
fn non_loadable_headers_do_not_change_the_plan() {
    let a = [seg(PT_LOAD, 0, 0x1000, 0x10, 0x20)];
    let b = [seg(4, 0, 0, u64::MAX, u64::MAX), seg(PT_LOAD, 0, 0x1000, 0x10, 0x20), seg(2, 7, 9, 9, 9)];
    let pa = plan_load(0x10, 5, &a).unwrap();
    let pb = plan_load(0x10, 5, &b).unwrap();
    assert_eq!((pa.min_addr, pa.max_addr, pa.num_pages, pa.entry_point), (pb.min_addr, pb.max_addr, pb.num_pages, pb.entry_point));
    assert_eq!(pa.copies, pb.copies);
}

#[test]
fn no_load_segment_is_refused() {
    assert_eq!(plan_load(100, 0, &[seg(2, 0, 0, 10, 10)]).err(), Some(LoaderError::NoLoadSegment));
    assert_eq!(plan_load(100, 0, &[]).err(), Some(LoaderError::NoLoadSegment));
}

#[test]
fn segment_end_overflow_is_refused_first() {
    let segs = [seg(PT_LOAD, 1000, 0x10, 5, 5), seg(PT_LOAD, 0, u64::MAX - 1, 2, 2)];
    assert_eq!(plan_load(10, 0, &segs).err(), Some(LoaderError::SegmentEndOverflow));
    // the memory size counts too
    let segs = [seg(PT_LOAD, 0, u64::MAX - 10, 5, 20)];
    assert_eq!(plan_load(10, 0, &segs).err(), Some(LoaderError::SegmentEndOverflow));
}

#[test]
fn size_overflow_is_refused() {
    let segs = [seg(PT_LOAD, 0, 0, 0, 0), seg(PT_LOAD, 0, u64::MAX - 10, 10, 10)];
    assert_eq!(plan_load(10, 0, &segs).err(), Some(LoaderError::SizeOverflow));
}

#[test]
fn segment_outside_file_is_refused() {
    let segs = [seg(PT_LOAD, 90, 0x1000, 11, 11)];
    assert_eq!(plan_load(100, 0, &segs).err(), Some(LoaderError::SegmentOutsideFile));
    assert!(plan_load(101, 0, &segs).is_ok());
}

fn put(buf: &mut Vec<u8>, at: usize, bytes: &[u8]) {
    buf[at..at + bytes.len()].copy_from_slice(bytes);
}

fn tiny_elf(phoff: u64) -> Vec<u8> {
    let mut b = vec![0u8; 0x100];
    put(&mut b, 0, &[0x7f, b'E', b'L', b'F', 2, 1, 1, 0]);
    put(&mut b, 16, &2u16.to_le_bytes());
    put(&mut b, 18, &0x3eu16.to_le_bytes());
    put(&mut b, 20, &1u32.to_le_bytes());
    put(&mut b, 24, &0x100080u64.to_le_bytes());
    put(&mut b, 32, &phoff.to_le_bytes());
    put(&mut b, 40, &0u64.to_le_bytes());
    put(&mut b, 52, &64u16.to_le_bytes());
    put(&mut b, 54, &56u16.to_le_bytes());
    put(&mut b, 56, &1u16.to_le_bytes());
    put(&mut b, 58, &64u16.to_le_bytes());
    // one PT_LOAD program header at 64
    put(&mut b, 64, &1u32.to_le_bytes());
    put(&mut b, 68, &5u32.to_le_bytes());
    put(&mut b, 72, &0u64.to_le_bytes());
    put(&mut b, 80, &0x100000u64.to_le_bytes());
    put(&mut b, 88, &0x100000u64.to_le_bytes());
    put(&mut b, 96, &0x100u64.to_le_bytes());
    put(&mut b, 104, &0x180u64.to_le_bytes());
    put(&mut b, 112, &0x1000u64.to_le_bytes());
    b
}

#[test]
fn reads_program_headers_of_an_elf_file() {
    let elf = read_kernel_elf(&tiny_elf(64)).unwrap();
    assert_eq!(elf.entry, 0x100080);
    assert_eq!(elf.segments, vec![seg(PT_LOAD, 0, 0x100000, 0x100, 0x180)]);
    let plan = plan_kernel_load(&tiny_elf(64)).unwrap();
    assert_eq!(plan.entry_point, 0x100080);
    assert_eq!(plan.min_addr, 0x100000);
    assert_eq!(plan.max_addr, 0x100180);
    assert_eq!(plan.num_pages, 1);
    assert_eq!(plan.copies, vec![CopyStep { dest: 0x100000, src_offset: 0, copy_len: 0x100, zero_len: 0x80 }]);
}

#[test]
fn file_without_program_headers_is_refused() {
    assert_eq!(read_kernel_elf(&tiny_elf(0)).err(), Some(LoaderError::NoProgramHeaders));
}

#[test]
fn non_elf_file_is_refused() {
    assert_eq!(plan_kernel_load(b"not an elf file at all, just text").err(), Some(LoaderError::ElfParse));
    assert_eq!(read_kernel_elf(&[]).err(), Some(LoaderError::ElfParse));
}

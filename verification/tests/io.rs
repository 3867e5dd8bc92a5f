use ostd_mm::error::Error;
use ostd_mm::mm::frame::allocator::{init, FrameAllocOptions, MemoryRegion, MemoryRegionType};
use ostd_mm::mm::frame::untyped::{UntypedMem, VmIo};
use ostd_mm::mm::frame::FrameManager;
use ostd_mm::mm::io::{FallibleVmRead, FallibleVmWrite, VirtMem, VmReader, VmWriter};
use ostd_mm::mm::LINEAR_MAPPING_BASE_VADDR;

fn linear_mem(nr_frames: usize) -> VirtMem {
    VirtMem { base: LINEAR_MAPPING_BASE_VADDR, bytes: vec![Some(0xaa); nr_frames * 4096] }
}


const K: u64 = 0xffff_8000_0010_0000;

fn kernel_mem(len: usize) -> VirtMem {
    VirtMem { base: K, bytes: (0..len).map(|i| Some(i as u8)).collect() }
}

fn byte(mem: &VirtMem, a: u64) -> Option<u8> {
    mem.read_byte(a)
}

#[test]
fn read_copies_until_either_side_is_exhausted() {
    let mut mem = kernel_mem(64);
    let mut reader = VmReader::from_kernel_space(K, 8);
    let mut writer = VmWriter::from_kernel_space(K + 32, 5);
    assert_eq!(reader.remain(), 8);
    assert_eq!(writer.avail(), 5);
    let n = reader.read(&mut writer, &mut mem);
    assert_eq!(n, 5);
    assert_eq!(reader.remain(), 3);
    assert_eq!(reader.cursor(), K + 5);
    assert!(!writer.has_avail());
    for i in 0..5u64 {
        assert_eq!(byte(&mem, K + 32 + i), Some(i as u8));
    }
    assert_eq!(byte(&mem, K + 37), Some(37));
    assert_eq!(reader.read(&mut writer, &mut mem), 0);
}

#[test]
fn write_is_read_from_the_other_side() {
    let mut mem = kernel_mem(64);
    let mut reader = VmReader::from_kernel_space(K + 10, 4);
    let mut writer = VmWriter::from_kernel_space(K + 40, 16);
    assert_eq!(writer.write(&mut reader, &mut mem), 4);
    assert!(!reader.has_remain());
    assert_eq!(writer.cursor(), K + 44);
    assert_eq!(byte(&mem, K + 40), Some(10));
    assert_eq!(byte(&mem, K + 43), Some(13));
}

#[test]
fn overlapping_copy_reads_before_writing() {
    let mut mem = kernel_mem(16);
    let mut reader = VmReader::from_kernel_space(K, 8);
    let mut writer = VmWriter::from_kernel_space(K + 2, 8);
    assert_eq!(reader.read(&mut writer, &mut mem), 8);
    for i in 0..8u64 {
        assert_eq!(byte(&mem, K + 2 + i), Some(i as u8));
    }
}

#[test]
fn read_val_needs_enough_bytes() {
    let mem = kernel_mem(16);
    let mut reader = VmReader::from_kernel_space(K + 4, 6);
    assert_eq!(reader.read_val(&mem, 4), Ok(vec![4, 5, 6, 7]));
    assert_eq!(reader.remain(), 2);
    assert_eq!(reader.read_val(&mem, 4), Err(Error::InvalidArgs));
    assert_eq!(reader.remain(), 2);
    let mut aligned = VmReader::from_kernel_space(K + 8, 8);
    assert_eq!(aligned.read_once(&mem, 4), Ok(vec![8, 9, 10, 11]));
}

#[test]
fn write_val_and_fill() {
    let mut mem = kernel_mem(32);
    let mut writer = VmWriter::from_kernel_space(K, 6);
    assert_eq!(writer.write_val(&mut mem, &[0xaa, 0xbb]), Ok(()));
    assert_eq!(writer.avail(), 4);
    assert_eq!(writer.write_val(&mut mem, &[1, 2, 3, 4, 5]), Err(Error::InvalidArgs));
    assert_eq!(writer.fill(&mut mem, &[7, 8]), 2);
    assert_eq!(writer.avail(), 0);
    let got: Vec<Option<u8>> = (0..7).map(|i| byte(&mem, K + i)).collect();
    assert_eq!(got, vec![Some(0xaa), Some(0xbb), Some(7), Some(8), Some(7), Some(8), Some(6)]);
    let mut once = VmWriter::from_kernel_space(K + 16, 8);
    assert_eq!(once.write_once(&mut mem, &[1, 2, 3, 4]), Ok(()));
    assert_eq!(byte(&mem, K + 19), Some(4));
}

#[test]
fn limit_and_skip_shrink_the_range() {
    let reader = VmReader::from_kernel_space(K, 100).limit(10);
    assert_eq!(reader.remain(), 10);
    let reader = reader.limit(50);
    assert_eq!(reader.remain(), 10);
    let reader = reader.skip(4);
    assert_eq!(reader.cursor(), K + 4);
    assert_eq!(reader.remain(), 6);
    let writer = VmWriter::from_kernel_space(K, 100).skip(30).limit(5);
    assert_eq!(writer.cursor(), K + 30);
    assert_eq!(writer.avail(), 5);
}

#[test]
fn fallible_read_stops_at_a_fault() {
    let mut bytes: Vec<Option<u8>> = (0..16).map(|i| Some(i as u8)).collect();
    bytes[5] = None;
    let mut mem = VirtMem { base: 0x1000, bytes };
    let mut reader = VmReader::from_user_space(0x1000, 8);
    let mut writer = VmWriter::from_user_space(0x1008, 8);
    assert_eq!(reader.read_fallible(&mut writer, &mut mem), Err((Error::PageFault, 5)));
    assert_eq!(reader.cursor(), 0x1005);
    assert_eq!(writer.cursor(), 0x100d);
    assert_eq!(mem.read_byte(0x100c), Some(4));
    assert_eq!(writer.write_fallible(&mut reader, &mut mem), Err((Error::PageFault, 0)));
}

#[test]
fn fallible_read_val_and_collect_restore_the_cursor() {
    let mut bytes: Vec<Option<u8>> = (0..8).map(|i| Some(i as u8)).collect();
    bytes[6] = None;
    let mem = VirtMem { base: 0x2000, bytes };
    let mut reader = VmReader::from_user_space(0x2000, 8);
    assert_eq!(reader.read_val(&mem, 4), Ok(vec![0, 1, 2, 3]));
    assert_eq!(reader.read_val(&mem, 4), Err(Error::PageFault));
    assert_eq!(reader.cursor(), 0x2004);
    assert_eq!(reader.collect(&mem), Err(Error::PageFault));
    assert_eq!(reader.cursor(), 0x2004);
    let mut short = VmReader::from_user_space(0x2000, 4);
    assert_eq!(short.collect(&mem), Ok(vec![0, 1, 2, 3]));
    assert!(!short.has_remain());
    assert_eq!(short.read_val(&mem, 1), Err(Error::InvalidArgs));
}

#[test]
fn fallible_write_val_and_fill_zeros() {
    let mut bytes: Vec<Option<u8>> = vec![Some(9); 8];
    bytes[3] = None;
    let mut mem = VirtMem { base: 0x3000, bytes };
    let mut writer = VmWriter::from_user_space(0x3000, 8);
    assert_eq!(writer.write_val(&mut mem, &[1, 2]), Ok(()));
    assert_eq!(writer.cursor(), 0x3002);
    assert_eq!(writer.write_val(&mut mem, &[5, 6]), Err(Error::PageFault));
    assert_eq!(writer.cursor(), 0x3002);
    assert_eq!(mem.read_byte(0x3002), Some(5));
    assert_eq!(writer.fill_zeros(&mut mem, 4), Err((Error::PageFault, 1)));
    assert_eq!(writer.cursor(), 0x3003);
    assert_eq!(mem.read_byte(0x3002), Some(0));
    let mut tail = VmWriter::from_user_space(0x3004, 4);
    assert_eq!(tail.fill_zeros(&mut mem, 100), Ok(4));
    assert_eq!(mem.read_byte(0x3007), Some(0));
    assert_eq!(tail.fill_zeros(&mut mem, 1), Ok(0));
}

#[test]
fn kernel_reader_converts_to_fallible() {
    let mut mem = kernel_mem(16);
    let mut reader = VmReader::from_kernel_space(K, 4).to_fallible();
    let mut writer = VmWriter::from_kernel_space(K + 8, 4).to_fallible();
    assert_eq!(reader.read_fallible(&mut writer, &mut mem), Ok(4));
    assert_eq!(mem.read_byte(K + 11), Some(3));
}

#[test]
fn untyped_frame_reads_and_writes_through_the_linear_mapping() {
    let regions = vec![MemoryRegion { base: 0, len: 8 * 4096, typ: MemoryRegionType::Usable }];
    let mut fm = FrameManager::new(8, init(&regions));
    let frame = FrameAllocOptions::new().alloc_frame(&mut fm, &mut linear_mem(64)).unwrap();
    let base = LINEAR_MAPPING_BASE_VADDR + frame.start_paddr();
    assert_eq!(frame.reader().cursor(), base);
    assert_eq!(frame.reader().remain(), 4096);
    assert_eq!(frame.writer().avail(), 4096);

    // The frame's bytes and a kernel buffer right after them.
    let mut mem = VirtMem { base, bytes: vec![Some(0); 4096 + 64] };
    for i in 0..16u64 {
        mem.write_byte(base + 4096 + i, 0x50 + i as u8);
    }
    let mut src = VmReader::from_kernel_space(base + 4096, 16).to_fallible();
    assert_eq!(frame.write(100, &mut src, &mut mem), Ok(()));
    assert_eq!(mem.read_byte(base + 100), Some(0x50));
    assert_eq!(mem.read_byte(base + 115), Some(0x5f));
    assert!(!src.has_remain());

    let mut dst = VmWriter::from_kernel_space(base + 4096 + 32, 8).to_fallible();
    assert_eq!(frame.read(104, &mut dst, &mut mem), Ok(()));
    assert_eq!(mem.read_byte(base + 4096 + 32), Some(0x54));
    assert_eq!(mem.read_byte(base + 4096 + 39), Some(0x5b));

    let mut past = VmWriter::from_kernel_space(base + 4096, 8).to_fallible();
    assert_eq!(frame.read(4097, &mut past, &mut mem), Err(Error::InvalidArgs));
    assert_eq!(past.avail(), 8);
    let mut at_end = VmWriter::from_kernel_space(base + 4096, 8).to_fallible();
    assert_eq!(frame.read(4096, &mut at_end, &mut mem), Ok(()));
    assert_eq!(at_end.avail(), 8);
}

#[test]
fn untyped_frame_read_faults_on_a_missing_byte() {
    let regions = vec![MemoryRegion { base: 0, len: 8 * 4096, typ: MemoryRegionType::Usable }];
    let mut fm = FrameManager::new(8, init(&regions));
    let frame = FrameAllocOptions::new().alloc_frame(&mut fm, &mut linear_mem(64)).unwrap();
    let base = LINEAR_MAPPING_BASE_VADDR + frame.start_paddr();
    let mut mem = VirtMem { base, bytes: vec![Some(1); 4096 + 8] };
    mem.bytes[4096 + 2] = None;
    let mut dst = VmWriter::from_kernel_space(base + 4096, 8).to_fallible();
    assert_eq!(frame.read(0, &mut dst, &mut mem), Err(Error::PageFault));
    assert_eq!(dst.cursor(), base + 4096 + 2);
}

fn frame_with_buffer(extra: usize) -> (ostd_mm::mm::frame::Frame<ostd_mm::mm::frame::Untyped>, u64, VirtMem) {
    let regions = vec![MemoryRegion { base: 0, len: 8 * 4096, typ: MemoryRegionType::Usable }];
    let mut fm = FrameManager::new(8, init(&regions));
    let frame = FrameAllocOptions::new().alloc_frame(&mut fm, &mut linear_mem(64)).unwrap();
    let base = LINEAR_MAPPING_BASE_VADDR + frame.start_paddr();
    let mem = VirtMem { base, bytes: vec![Some(0); 4096 + extra] };
    (frame, base, mem)
}

#[test]
fn untyped_frame_read_bytes_and_write_bytes() {
    let (frame, base, mut mem) = frame_with_buffer(16);
    let buf = base + 4096;
    for i in 0..4u64 {
        mem.write_byte(buf + i, 0xa0 + i as u8);
    }
    assert_eq!(frame.write_bytes(8, buf, 4, &mut mem), Ok(()));
    assert_eq!(mem.read_byte(base + 8), Some(0xa0));
    assert_eq!(mem.read_byte(base + 11), Some(0xa3));
    assert_eq!(mem.read_byte(base + 12), Some(0));
    assert_eq!(frame.read_bytes(9, buf + 8, 2, &mut mem), Ok(()));
    assert_eq!(mem.read_byte(buf + 8), Some(0xa1));
    assert_eq!(mem.read_byte(buf + 9), Some(0xa2));
    assert_eq!(frame.write_bytes(4097, buf, 4, &mut mem), Err(Error::InvalidArgs));
    assert_eq!(frame.read_bytes(4097, buf, 4, &mut mem), Err(Error::InvalidArgs));
}

#[test]
fn write_vals_aligns_each_value() {
    let (frame, base, mut mem) = frame_with_buffer(16);
    let v1 = base + 4096;
    let v2 = base + 4096 + 4;
    for i in 0..3u64 {
        mem.write_byte(v1 + i, 0x10 + i as u8);
        mem.write_byte(v2 + i, 0x20 + i as u8);
    }
    // Three-byte values aligned to 4 from offset 1: at 4, 8 and 12.
    assert_eq!(frame.write_vals(1, &[v1, v2, v1], 3, 4, &mut mem), Ok(3));
    assert_eq!(mem.read_byte(base + 4), Some(0x10));
    assert_eq!(mem.read_byte(base + 6), Some(0x12));
    assert_eq!(mem.read_byte(base + 7), Some(0));
    assert_eq!(mem.read_byte(base + 8), Some(0x20));
    assert_eq!(mem.read_byte(base + 12), Some(0x10));
    // Without alignment the values are packed.
    assert_eq!(frame.write_vals(100, &[v2, v1], 3, 1, &mut mem), Ok(2));
    assert_eq!(mem.read_byte(base + 100), Some(0x20));
    assert_eq!(mem.read_byte(base + 103), Some(0x10));
}

#[test]
fn write_vals_stops_at_the_first_failure() {
    let (frame, base, mut mem) = frame_with_buffer(16);
    let v = base + 4096;
    mem.write_byte(v, 0x77);
    // The second value would start past the end of the frame.
    assert_eq!(frame.write_vals(4096, &[v, v, v], 1, 0, &mut mem), Ok(1));
    // Nothing is written when the first write fails.
    assert_eq!(frame.write_vals(4097, &[v], 1, 0, &mut mem), Err(Error::InvalidArgs));
    assert_eq!(frame.write_vals(0, &[], 1, 0, &mut mem), Ok(0));
}

#[test]
fn untyped_frame_read_val_and_slices() {
    let (frame, base, mut mem) = frame_with_buffer(32);
    let buf = base + 4096;
    for i in 0..8u64 {
        mem.write_byte(buf + i, 0x30 + i as u8);
    }
    // Two values of four bytes each.
    assert_eq!(frame.write_slice(16, buf, 2, 4, &mut mem), Ok(()));
    assert_eq!(mem.read_byte(base + 16), Some(0x30));
    assert_eq!(mem.read_byte(base + 23), Some(0x37));
    assert_eq!(mem.read_byte(base + 24), Some(0));
    assert_eq!(frame.read_slice(20, buf + 16, 2, 2, &mut mem), Ok(()));
    assert_eq!(mem.read_byte(buf + 16), Some(0x34));
    assert_eq!(mem.read_byte(buf + 19), Some(0x37));
    assert_eq!(frame.read_val(16, buf + 24, 1, &mut mem), Ok(()));
    assert_eq!(mem.read_byte(buf + 24), Some(0x30));
    assert_eq!(frame.write_val(0, buf + 24, 1, &mut mem), Ok(()));
    assert_eq!(mem.read_byte(base), Some(0x30));
}

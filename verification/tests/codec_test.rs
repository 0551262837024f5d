use tutorialdb::codec::{copy_into, read_u32_le, rotate_right, write_u32_le, zero_range};

#[test]
fn write_u32_le_puts_least_significant_byte_first() {
    let mut buf = [0xffu8; 8];
    write_u32_le(&mut buf, 2, 0x0403_0201);
    assert_eq!(buf, [0xff, 0xff, 0x01, 0x02, 0x03, 0x04, 0xff, 0xff]);
}

#[test]
fn read_u32_le_reads_what_was_written() {
    let buf = [0u8, 0x78, 0x56, 0x34, 0x12, 0];
    assert_eq!(read_u32_le(&buf, 1), 0x1234_5678);
    let mut out = [0u8; 4];
    write_u32_le(&mut out, 0, u32::MAX);
    assert_eq!(out, [0xff; 4]);
    assert_eq!(read_u32_le(&out, 0), u32::MAX);
}

#[test]
fn read_u32_le_agrees_with_the_standard_library() {
    for x in [0u32, 1, 255, 256, 65_535, 65_536, 16_777_215, 16_777_216, 305_419_896, u32::MAX] {
        let mut buf = [0u8; 4];
        write_u32_le(&mut buf, 0, x);
        assert_eq!(buf, x.to_le_bytes());
        assert_eq!(read_u32_le(&x.to_le_bytes(), 0), x);
    }
}

#[test]
fn copy_into_overwrites_in_place() {
    let mut dst = [1u8, 2, 3, 4, 5, 6];
    copy_into(&mut dst, 2, &[9, 8, 7]);
    assert_eq!(dst, [1, 2, 9, 8, 7, 6]);
    copy_into(&mut dst, 6, &[]);
    assert_eq!(dst, [1, 2, 9, 8, 7, 6]);
}

#[test]
fn zero_range_clears_only_the_range() {
    let mut buf = [7u8; 6];
    zero_range(&mut buf, 1, 4);
    assert_eq!(buf, [7, 0, 0, 0, 7, 7]);
    zero_range(&mut buf, 5, 5);
    assert_eq!(buf, [7, 0, 0, 0, 7, 7]);
}

#[test]
fn rotate_right_moves_the_tail_to_the_front() {
    let mut buf = [0u8, 1, 2, 3, 4, 5, 6, 7];
    rotate_right(&mut buf, 1, 7, 2);
    assert_eq!(buf, [0, 5, 6, 1, 2, 3, 4, 7]);
}

#[test]
fn rotate_right_agrees_with_the_standard_library() {
    for k in 0..=5usize {
        let mut ours = [10u8, 11, 12, 13, 14, 15, 16];
        let mut theirs = ours;
        rotate_right(&mut ours, 1, 6, k);
        theirs[1..6].rotate_right(k);
        assert_eq!(ours, theirs);
    }
}

//! Buffers: numbers, bytes, bits and cursors.
use ruau::buffer::{Buffer, SeekError, SeekPosition};

fn buffer(len: usize) -> Buffer {
    Buffer::new(vec![0; len])
}

#[test]
fn numbers_are_little_endian() {
    let mut b = buffer(8);
    b.write_u32(1, 0x0403_0201).expect("fits");
    assert_eq!(vec![0, 1, 2, 3, 4, 0, 0, 0], b.to_vec());
    assert_eq!(0x0403_0201, b.read_u32(1).expect("fits"));
    assert_eq!(0x0201, b.read_u16(1).expect("fits"));
    assert_eq!(4, b.read_u8(4).expect("fits"));
}

#[test]
fn signed_numbers_come_back() {
    let mut b = buffer(8);
    b.write_i8(0, -2).expect("fits");
    assert_eq!((-2, 254), (b.read_i8(0).expect("i8"), b.read_u8(0).expect("u8")));
    b.write_i16(0, i16::MIN).expect("fits");
    assert_eq!(i16::MIN, b.read_i16(0).expect("i16"));
    b.write_i32(0, -7).expect("fits");
    assert_eq!(-7, b.read_i32(0).expect("i32"));
    b.write_i64(0, i64::MIN + 1).expect("fits");
    assert_eq!(i64::MIN + 1, b.read_i64(0).expect("i64"));
    b.write_u64(0, u64::MAX).expect("fits");
    assert_eq!((u64::MAX, -1), (b.read_u64(0).expect("u64"), b.read_i64(0).expect("i64")));
    b.write_u8(7, 9).expect("fits");
    b.write_u16(0, 513).expect("fits");
    assert_eq!(vec![1, 2, 255, 255, 255, 255, 255, 9], b.to_vec());
}

#[test]
fn accesses_out_of_bounds_are_refused() {
    let mut b = buffer(4);
    let text = "runtime error: buffer access out of bounds";
    assert_eq!(text, b.read_u32(1).expect_err("past the end").message());
    assert_eq!(text, b.write_u16(3, 1).expect_err("past the end").message());
    assert_eq!(text, b.try_read_bytes(usize::MAX, 2).expect_err("overflow").message());
    assert_eq!(text, b.try_write_bytes(2, &[1, 2, 3]).expect_err("long").message());
    assert_eq!(vec![0; 4], b.to_vec());
    assert!(b.try_read_bytes(4, 0).expect("empty").is_empty());
    assert_eq!(text, b.read_bits(31, 2).expect_err("past the end").message());
    let wide = "runtime error: bit count is out of range of [0; 32]";
    assert_eq!(wide, b.read_bits(0, 33).expect_err("wide").message());
    assert_eq!(wide, b.write_bits(0, 33, 0).expect_err("wide").message());
}

#[test]
fn bytes_come_back() {
    let mut b = buffer(5);
    assert!(!b.is_empty());
    assert_eq!(5, b.len());
    b.write_bytes(1, &[7, 8, 9]);
    assert_eq!(vec![7, 8, 9], b.read_bytes(1, 3));
    b.try_write_bytes(0, &[1, 2]).expect("fits");
    assert_eq!(vec![1, 2, 8, 9, 0], b.try_read_bytes(0, 5).expect("all"));
    assert!(buffer(0).is_empty());
}

#[test]
fn bits_leave_their_neighbours_alone() {
    let mut b = Buffer::new(vec![0xff; 6]);
    b.write_bits(3, 32, 0x1234_5678).expect("fits");
    assert_eq!(0x1234_5678, b.read_bits(3, 32).expect("fits"));
    assert_eq!(0b111, b.read_bits(0, 3).expect("below"));
    assert_eq!(0x1fff, b.read_bits(35, 13).expect("above"));
    b.write_bits(0, 4, 0xabcd).expect("only the low bits");
    assert_eq!(0xd, b.read_bits(0, 4).expect("low bits"));
    assert_eq!(0, b.read_bits(48, 0).expect("no bits"));
}

#[test]
fn cursors_stop_at_the_end() {
    let mut b = buffer(4);
    let mut cursor = b.cursor();
    assert_eq!(4, cursor.write(&mut b, &[1, 2, 3, 4, 5]));
    assert_eq!(0, cursor.write(&mut b, &[6]));
    assert_eq!(1, cursor.seek(&b, SeekPosition::Start(1)).expect("seek"));
    assert_eq!(vec![2, 3], cursor.read(&b, 2));
    assert_eq!(vec![4], cursor.read(&b, 9));
    assert_eq!(2, cursor.seek(&b, SeekPosition::Current(-2)).expect("seek"));
    assert_eq!(3, cursor.seek(&b, SeekPosition::End(-1)).expect("seek"));
    assert!(matches!(cursor.seek(&b, SeekPosition::End(-5)), Err(SeekError::Invalid)));
    assert!(matches!(cursor.seek(&b, SeekPosition::Start(5)), Err(SeekError::BeyondEnd)));
    assert_eq!("invalid seek position", SeekError::Invalid.message());
    assert_eq!(
        "invalid seek to a position beyond the end of the buffer",
        SeekError::BeyondEnd.message()
    );
    assert_eq!(vec![4], cursor.read(&b, 1));
}

use endio_bit::{BEBitReader, LEBitReader, ReadError};
use std::io::Read;

#[test]
fn get_ref() {
    let reader = BEBitReader::new(&b"\xf8"[..]);
    let inner = reader.get_ref();
    assert_eq!(inner[0], 0xf8);
}

#[test]
fn get_mut_aligned() {
    let mut reader = BEBitReader::new(&b"\xf8"[..]);
    let inner = reader.get_mut();
    let mut buf = [0; 1];
    inner.read(&mut buf).unwrap();
    assert_eq!(buf[0], 0xf8);
}

#[test]
fn get_mut_unchecked() {
    let mut reader = BEBitReader::new(&b"\x00\xff"[..]);
    reader.read_bits(4).unwrap();
    let inner = reader.get_mut_unchecked();
    let mut buf = [0; 1];
    inner.read(&mut buf).unwrap();
    assert_eq!(buf[0], 0xff);
}

#[test]
fn into_inner() {
    let reader = BEBitReader::new(std::io::empty());
    let inner = reader.into_inner();
    inner.bytes();
}

#[test]
fn align() {
    let mut reader = BEBitReader::new(&b"\xf8\x80"[..]);
    let bits = reader.read_bits(5).unwrap();
    assert!(!reader.is_aligned());
    reader.align();
    assert!(reader.is_aligned());
    let bit = reader.read_bit().unwrap();
    assert_eq!(bits, 31);
    assert!(bit);
}

#[test]
fn read_aligned() {
    let mut reader = BEBitReader::new(&b"Test"[..]);
    let mut buf = [0; 4];
    assert_eq!(reader.read(&mut buf).unwrap(), 4);
    assert_eq!(&buf, b"Test");
}

#[test]
fn read_shifted() {
    let mut reader = BEBitReader::new(&b"\xaa\x8c\xae\x6e\x80"[..]);
    assert!(reader.read_bit().unwrap());
    assert!(!reader.read_bit().unwrap());
    assert!(reader.read_bit().unwrap());
    let mut buf = [0; 0];
    assert_eq!(reader.read(&mut buf).unwrap(), 0);
    assert_eq!(&buf, b"");
    let mut buf = [0; 1];
    assert_eq!(reader.read(&mut buf).unwrap(), 1);
    assert_eq!(&buf, b"T");
    let mut buf = [0; 7];
    assert_eq!(reader.read(&mut buf).unwrap(), 3);
    assert_eq!(&buf, b"est\0\0\0\0");
}

#[test]
fn read_bit() {
    let mut reader = BEBitReader::new(&b"\x2a"[..]);
    assert!(!reader.read_bit().unwrap());
    assert!(!reader.read_bit().unwrap());
    assert!(reader.read_bit().unwrap());
    assert!(!reader.read_bit().unwrap());
    assert!(reader.read_bit().unwrap());
    assert!(!reader.read_bit().unwrap());
    assert!(reader.read_bit().unwrap());
    assert!(!reader.read_bit().unwrap());
}

#[test]
fn read_bits() {
    let mut reader = BEBitReader::new(&b"\xab\xcd"[..]);
    assert_eq!(reader.read_bits(4).unwrap(), 0x0a);
    assert_eq!(reader.read_bits(8).unwrap(), 0xbc);
}

#[test]
fn read_read_aligned() {
    let mut reader = LEBitReader::new(&b"Test"[..]);
    let mut buf = [0; 4];
    assert_eq!(reader.read(&mut buf).unwrap(), 4);
    assert_eq!(&buf, b"Test");
}

#[test]
fn read_read_shifted() {
    let mut reader = LEBitReader::new(&b"\xaa\x8c\xae\x6e\x80"[..]);
    assert!(!reader.read_bit().unwrap());
    assert!(reader.read_bit().unwrap());
    assert!(!reader.read_bit().unwrap());
    let mut buf = [0; 0];
    assert_eq!(reader.read(&mut buf).unwrap(), 0);
    assert_eq!(&buf, b"");
    let mut buf = [0; 1];
    assert_eq!(reader.read(&mut buf).unwrap(), 1);
    assert_eq!(&buf, b"\x95");
    let mut buf = [0; 7];
    assert_eq!(reader.read(&mut buf).unwrap(), 3);
    // only the three bytes the source filled are shifted; the rest stay as they were
    assert_eq!(&buf, b"\xd1\xd5\x0d\0\0\0\0");
}

#[test]
fn read_read_bit() {
    let mut reader = LEBitReader::new(&b"\x2a"[..]);
    assert!(!reader.read_bit().unwrap());
    assert!(reader.read_bit().unwrap());
    assert!(!reader.read_bit().unwrap());
    assert!(reader.read_bit().unwrap());
    assert!(!reader.read_bit().unwrap());
    assert!(reader.read_bit().unwrap());
    assert!(!reader.read_bit().unwrap());
    assert!(!reader.read_bit().unwrap());
}

#[test]
fn read_read_bits() {
    let mut reader = LEBitReader::new(&b"\xab\xcd"[..]);
    assert_eq!(reader.read_bits(4).unwrap(), 0x0b);
    assert_eq!(reader.read_bits(8).unwrap(), 0xda);
}

#[test]
fn read_bits_doc_examples() {
    let mut reader = BEBitReader::new(&b"\xf8"[..]);
    assert_eq!(reader.read_bits(5).unwrap(), 31);
    let mut reader = LEBitReader::new(&b"\xf8"[..]);
    assert_eq!(reader.read_bits(5).unwrap(), 24);
    let mut reader = BEBitReader::new(&b"\x80"[..]);
    assert!(reader.read_bit().unwrap());
    let mut reader = LEBitReader::new(&b"\x01"[..]);
    assert!(reader.read_bit().unwrap());
}

#[test]
fn read_zero_bits_reads_nothing() {
    let mut reader = BEBitReader::new(&b"\x5a"[..]);
    assert_eq!(reader.read_bits(0).unwrap(), 0);
    assert!(reader.is_aligned());
    assert_eq!(reader.get_ref().len(), 1);
    assert_eq!(reader.read_bits(8).unwrap(), 0x5a);
}

#[test]
fn read_bits_at_end_of_input_fails() {
    let mut reader = BEBitReader::new(&b""[..]);
    assert!(matches!(reader.read_bits(1), Err(ReadError::UnexpectedEof)));
    assert!(matches!(reader.read_bit(), Err(ReadError::UnexpectedEof)));
    let mut reader = LEBitReader::new(&b"\xff"[..]);
    assert_eq!(reader.read_bits(5).unwrap(), 0x1f);
    assert!(matches!(reader.read_bits(4), Err(ReadError::UnexpectedEof)));
    // the failed read consumed nothing
    assert_eq!(reader.read_bits(3).unwrap(), 0x07);
    assert!(reader.is_aligned());
}

#[test]
fn read_bits_across_bytes() {
    let mut reader = BEBitReader::new(&b"\x12\x34\x56"[..]);
    assert_eq!(reader.read_bits(3).unwrap(), 0b000);
    assert_eq!(reader.read_bits(7).unwrap(), 0b1001000);
    assert_eq!(reader.read_bits(8).unwrap(), 0b11010001);
    assert_eq!(reader.read_bits(6).unwrap(), 0b010110);
    assert!(reader.is_aligned());
    let mut reader = LEBitReader::new(&b"\x12\x34\x56"[..]);
    assert_eq!(reader.read_bits(3).unwrap(), 0b010);
    assert_eq!(reader.read_bits(7).unwrap(), 0b0010);
    assert_eq!(reader.read_bits(8).unwrap(), 0b10001101);
    assert_eq!(reader.read_bits(6).unwrap(), 0b010101);
}

#[test]
fn bits_reassemble_to_bytes() {
    let data = [0x00u8, 0xff, 0x2a, 0xc3, 0x81];
    let mut be = BEBitReader::new(&data[..]);
    let mut le = LEBitReader::new(&data[..]);
    for &byte in data.iter() {
        let mut from_be = 0u8;
        let mut from_le = 0u8;
        for i in 0..8 {
            if be.read_bit().unwrap() {
                from_be |= 0x80 >> i;
            }
            if le.read_bit().unwrap() {
                from_le |= 1 << i;
            }
        }
        assert_eq!(from_be, byte);
        assert_eq!(from_le, byte);
    }
    assert!(be.read_bit().is_err());
}

#[test]
fn split_byte_matches_single_bits() {
    for count in 0..=8u8 {
        let mut split = BEBitReader::new(&b"\xb5"[..]);
        let high = split.read_bits(count).unwrap() as u16;
        let low = split.read_bits(8 - count).unwrap() as u16;
        assert_eq!((high << (8 - count)) | low, 0xb5);
        let mut split = LEBitReader::new(&b"\xb5"[..]);
        let first = split.read_bits(count).unwrap() as u16;
        let second = split.read_bits(8 - count).unwrap() as u16;
        assert_eq!(first | (second << count), 0xb5);
    }
}

#[test]
fn align_twice_is_align_once() {
    let mut reader = LEBitReader::new(&b"\x0f\xf0"[..]);
    reader.read_bits(3).unwrap();
    reader.align();
    reader.align();
    assert!(reader.is_aligned());
    assert_eq!(reader.read_bits(8).unwrap(), 0xf0);
    reader.align();
    assert!(reader.is_aligned());
}

#[test]
fn into_inner_drops_partial_byte() {
    let mut reader = BEBitReader::new(&b"\x01\x02\x03"[..]);
    reader.read_bits(8).unwrap();
    reader.read_bits(3).unwrap();
    let inner = reader.into_inner();
    assert_eq!(inner, &b"\x03"[..]);
    let mut reader = BEBitReader::new(&b"\x01\x02\x03"[..]);
    reader.read_bits(8).unwrap();
    let inner = reader.into_inner();
    assert_eq!(inner, &b"\x02\x03"[..]);
}

#[test]
fn bulk_read_at_end_of_input() {
    let mut reader = BEBitReader::new(&b"\xf0"[..]);
    reader.read_bits(4).unwrap();
    let mut buf = [0x11u8; 2];
    assert_eq!(reader.read(&mut buf).unwrap(), 0);
    assert_eq!(buf, [0x11, 0x11]);
    assert_eq!(reader.read_bits(4).unwrap(), 0);
}

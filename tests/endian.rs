use endio_bit::{BitEndianness, BE, LE};

#[test]
fn be_shifts() {
    assert_eq!(BE::shift_msb(0xab, 4), 0xb0);
    assert_eq!(BE::shift_msb(0xab, 8), 0);
    assert_eq!(BE::shift_lsb(0xab, 4), 0x0a);
    assert_eq!(BE::shift_lsb(0xab, 8), 0);
    assert_eq!(BE::align_right(0x0a, 4), 0x0a);
}

#[test]
fn le_shifts() {
    assert_eq!(LE::shift_msb(0xab, 4), 0x0a);
    assert_eq!(LE::shift_msb(0xab, 8), 0);
    assert_eq!(LE::shift_lsb(0xab, 4), 0xb0);
    assert_eq!(LE::shift_lsb(0xab, 8), 0);
    assert_eq!(LE::align_right(0xb0, 4), 0x0b);
    assert_eq!(LE::align_right(0xb0, 0), 0);
}

use rusty_tank::protobuf::{read_uvarint, Cursor};

#[test]
fn test_read_uvarint() {
    assert_eq!(read_uvarint(&mut Cursor::new(vec![0x80])), None);
    assert_eq!(read_uvarint(&mut Cursor::new(vec![0x00])).unwrap(), 0);
    assert_eq!(read_uvarint(&mut Cursor::new(vec![0x03])).unwrap(), 3);
    assert_eq!(read_uvarint(&mut Cursor::new(vec![0x8E, 0x02])).unwrap(), 270);
    assert_eq!(read_uvarint(&mut Cursor::new(vec![0x9E, 0xA7, 0x05])).unwrap(), 86942);
}

#[test]
fn uvarint_of_no_bytes_is_none() {
    let mut cursor = Cursor::new(Vec::new());
    assert_eq!(read_uvarint(&mut cursor), None);
    assert_eq!(cursor.remaining(), 0);
}

#[test]
fn unfinished_uvarint_uses_up_the_bytes() {
    let mut cursor = Cursor::new(vec![0x80, 0x81, 0xFF]);
    assert_eq!(read_uvarint(&mut cursor), None);
    assert_eq!(cursor.remaining(), 0);
}

#[test]
fn uvarint_leaves_the_bytes_after_it() {
    let mut cursor = Cursor::new(vec![0x8E, 0x02, 0x03, 0x9E]);
    assert_eq!(read_uvarint(&mut cursor), Some(270));
    assert_eq!(cursor.remaining(), 2);
    assert_eq!(read_uvarint(&mut cursor), Some(3));
    assert_eq!(cursor.remaining(), 1);
    assert_eq!(read_uvarint(&mut cursor), None);
    assert_eq!(cursor.remaining(), 0);
}

#[test]
fn uvarint_of_five_bytes_fills_all_bits() {
    let mut cursor = Cursor::new(vec![0xFF, 0xFF, 0xFF, 0xFF, 0x0F]);
    assert_eq!(read_uvarint(&mut cursor), Some(u32::MAX));
    assert_eq!(cursor.remaining(), 0);
}

#[test]
fn uvarint_drops_bits_above_the_value() {
    // The fifth byte carries seven bits, of which four fit.
    assert_eq!(read_uvarint(&mut Cursor::new(vec![0x80, 0x80, 0x80, 0x80, 0x7F])), Some(0xF000_0000));
    // A sixth byte adds nothing.
    let mut cursor = Cursor::new(vec![0x81, 0x80, 0x80, 0x80, 0x80, 0x7F, 0x05]);
    assert_eq!(read_uvarint(&mut cursor), Some(1));
    assert_eq!(cursor.remaining(), 1);
}

#[test]
fn cursor_reads_byte_by_byte() {
    let mut cursor = Cursor::new(vec![7, 9]);
    assert_eq!(cursor.remaining(), 2);
    assert_eq!(cursor.read_byte(), Some(7));
    assert_eq!(cursor.read_byte(), Some(9));
    assert_eq!(cursor.read_byte(), None);
    assert_eq!(cursor.remaining(), 0);
}

use ppmd_rust::{ByteReader, ByteWriter, IoError};

#[test]
fn reader_reads_front_to_back_then_reports_the_end() {
    let mut r = ByteReader::new(vec![7, 8, 9]);
    assert_eq!(r.len(), 3);
    assert_eq!(r.read_byte(), Ok(7));
    assert_eq!(r.position(), 1);
    assert_eq!(r.remaining(), &[8, 9]);
    assert_eq!(r.read_byte(), Ok(8));
    assert_eq!(r.read_byte(), Ok(9));
    assert!(r.is_empty());
    assert_eq!(r.read_byte(), Err(IoError::UnexpectedEof));
    assert_eq!(r.position(), 3);
    assert_eq!(r.len(), 0);
}

#[test]
fn reader_hands_back_what_is_left() {
    let mut r = ByteReader::new(vec![1, 2, 3, 4]);
    r.read_byte().unwrap();
    assert_eq!(r.into_remaining(), vec![2, 3, 4]);
}

#[test]
fn writer_appends_after_its_start() {
    let mut w = ByteWriter::new(vec![0xAA]);
    w.write_byte(1);
    w.write_byte(2);
    assert_eq!(w.len(), 3);
    assert_eq!(w.as_slice(), &[0xAA, 1, 2]);
    assert_eq!(w.into_inner(), vec![0xAA, 1, 2]);
}

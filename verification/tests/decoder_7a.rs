use ppmd_rust::{ByteReader, Error, IoError, Ppmd7aDecoder};

#[test]
fn decoder_checks_its_parameters() {
    for (order, mem) in [(1, 1 << 20), (65, 1 << 20), (6, 0x7FF), (6, 0xFFFF_FFDC)] {
        assert!(matches!(
            Ppmd7aDecoder::new(ByteReader::new(vec![0, 0, 0, 0]), order, mem),
            Err(Error::InvalidParameter)
        ));
    }
    assert!(Ppmd7aDecoder::new(ByteReader::new(vec![0, 0, 0, 0]), 2, 0x800).is_ok());
    assert!(Ppmd7aDecoder::new(ByteReader::new(vec![0, 0, 0, 0]), 64, 1 << 20).is_ok());
}

#[test]
fn decoder_checks_the_stream_start() {
    assert!(matches!(
        Ppmd7aDecoder::new(ByteReader::new(vec![0, 0]), 6, 1 << 20),
        Err(Error::IoError(IoError::UnexpectedEof))
    ));
    assert!(matches!(
        Ppmd7aDecoder::new(ByteReader::new(vec![0xFF, 0xFF, 0xFF, 0xFF]), 6, 1 << 20),
        Err(Error::RangeDecoderInitialization)
    ));
}

#[test]
fn decoder_gives_access_to_the_stream() {
    let mut d = Ppmd7aDecoder::new(ByteReader::new(vec![0, 0, 0, 5, 1, 2, 3]), 6, 1 << 20).unwrap();
    assert_eq!(d.range_decoder_code(), 5);
    assert_eq!(d.get_ref().len(), 3);
    assert_eq!(d.get_mut().read_byte(), Ok(1));
    assert_eq!(d.get_ref().remaining(), &[2, 3]);
    assert_eq!(d.into_inner().into_remaining(), vec![2, 3]);
}

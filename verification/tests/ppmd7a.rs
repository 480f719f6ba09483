use ppmd_rust::{ByteReader, ByteWriter, Error, IoError, Ppmd7aDecoder, Ppmd7aEncoder};

fn sample() -> Vec<u8> {
    let mut v = Vec::new();
    for i in 0..20_000u32 {
        v.extend_from_slice(
            format!("line {} of the PPMd var.H round trip, {}\n", i, i % 7).as_bytes(),
        );
    }
    v.extend(0..=255u8);
    v
}

fn encode(data: &[u8], order: u32, mem: u32, end_marker: bool) -> Vec<u8> {
    let mut encoder = Ppmd7aEncoder::new(ByteWriter::new(Vec::new()), order, mem).unwrap();
    encoder.write(data);
    encoder.finish(end_marker).into_inner()
}

fn read_to_end(decoder: &mut Ppmd7aDecoder) -> Result<Vec<u8>, Error> {
    let mut out = Vec::new();
    loop {
        let n = decoder.read(&mut out, 4096)?;
        if n == 0 {
            return Ok(out);
        }
    }
}

fn read_exact(decoder: &mut Ppmd7aDecoder, n: usize) -> Vec<u8> {
    let mut out = Vec::new();
    while out.len() < n {
        let want = n - out.len();
        let got = decoder.read(&mut out, want).unwrap();
        assert!(got > 0, "the stream ended early");
    }
    out
}

#[test]
fn ppmd7a_round_trips_with_an_end_marker() {
    let data = sample();
    let packed = encode(&data, 6, 16 << 20, true);
    assert!(packed.len() < data.len() / 4, "{} of {}", packed.len(), data.len());
    let mut decoder = Ppmd7aDecoder::new(ByteReader::new(packed), 6, 16 << 20).unwrap();
    let out = read_to_end(&mut decoder).unwrap();
    assert_eq!(out, data);
}

#[test]
fn ppmd7a_round_trips_to_a_known_length() {
    let data = sample();
    let packed = encode(&data, 8, 8 << 20, false);
    let mut decoder = Ppmd7aDecoder::new(ByteReader::new(packed), 8, 8 << 20).unwrap();
    let out = read_exact(&mut decoder, data.len());
    assert_eq!(out, data);
}

#[test]
fn ppmd7a_restarts_the_range_coder_and_keeps_the_model() {
    let first = b"the first block of text, repeated words words words words";
    let second = b"the second block, with the same words words words again";

    let mut encoder = Ppmd7aEncoder::new(ByteWriter::new(Vec::new()), 6, 1 << 20).unwrap();
    encoder.write(first);
    encoder.restart_range_coder();
    let after_first = encoder.get_ref().len();
    encoder.write(second);
    let compressed = encoder.finish(false).into_inner();

    let mut decoder = Ppmd7aDecoder::new(ByteReader::new(compressed.clone()), 6, 1 << 20).unwrap();
    let out = read_exact(&mut decoder, first.len());
    assert_eq!(&out, first);
    // The first coder's flushed bytes were consumed exactly; the second block
    // starts where the encoder restarted.
    assert_eq!(compressed.len() - decoder.get_ref().len(), after_first);
    decoder.restart_range_coder().unwrap();
    let out = read_exact(&mut decoder, second.len());
    assert_eq!(&out, second);
}

#[test]
fn ppmd7a_round_trips_in_a_small_memory_that_restarts_the_model() {
    let data = sample();
    let packed = encode(&data[..200_000], 16, 0x800, true);
    let mut decoder = Ppmd7aDecoder::new(ByteReader::new(packed), 16, 0x800).unwrap();
    let out = read_to_end(&mut decoder).unwrap();
    assert_eq!(out, &data[..200_000]);
}

#[test]
fn ppmd7a_round_trips_every_byte_value_at_the_smallest_order() {
    let data: Vec<u8> = (0..4096u32).map(|i| (i * 7 + i / 13) as u8).collect();
    let packed = encode(&data, 2, 1 << 16, true);
    let mut decoder = Ppmd7aDecoder::new(ByteReader::new(packed), 2, 1 << 16).unwrap();
    assert_eq!(read_to_end(&mut decoder).unwrap(), data);
}

#[test]
fn ppmd7a_empty_data_is_only_the_end_marker() {
    let packed = encode(&[], 6, 1 << 20, true);
    let mut decoder = Ppmd7aDecoder::new(ByteReader::new(packed), 6, 1 << 20).unwrap();
    assert_eq!(read_to_end(&mut decoder).unwrap(), Vec::<u8>::new());
    // A finished decoder reads nothing more.
    let mut out = Vec::new();
    assert_eq!(decoder.read(&mut out, 10), Ok(0));
}

#[test]
fn ppmd7a_stream_without_end_marker_finishes_at_its_end() {
    let data = b"abracadabra abracadabra".to_vec();
    let packed = encode(&data, 6, 1 << 20, false);
    let mut decoder = Ppmd7aDecoder::new(ByteReader::new(packed), 6, 1 << 20).unwrap();
    let out = read_to_end(&mut decoder).unwrap();
    assert!(out.len() >= data.len());
    assert_eq!(&out[..data.len()], &data[..]);
}

#[test]
fn ppmd7a_end_marker_with_a_nonzero_code_is_invalid_data() {
    // A fresh model's root escape (the end marker), then a code of 0x100 instead of zero.
    let mut decoder =
        Ppmd7aDecoder::new(ByteReader::new(vec![0xFF, 0x00, 0xFF, 0x01, 0x00]), 6, 1 << 20).unwrap();
    let mut out = Vec::new();
    assert!(matches!(decoder.read(&mut out, 4), Err(Error::IoError(IoError::InvalidData))));
    assert!(out.is_empty());
    assert_eq!(decoder.read(&mut out, 4), Ok(0));
}

#[test]
fn ppmd7a_bare_end_marker_reads_nothing() {
    // The end marker alone, as a fresh encoder writes it, followed by a zero code.
    let mut decoder =
        Ppmd7aDecoder::new(ByteReader::new(vec![0xFF, 0x00, 0xFF, 0x00, 0x00]), 6, 1 << 20).unwrap();
    let mut out = Vec::new();
    assert_eq!(decoder.read(&mut out, 4), Ok(0));
    assert!(out.is_empty());
    assert!(decoder.get_ref().is_empty());
    assert_eq!(decoder.read(&mut out, 4), Ok(0));
    assert_eq!(encode(&[], 6, 1 << 20, true), vec![0xFF, 0x00, 0xFF, 0x00, 0x00]);
}

#[test]
fn ppmd7a_first_symbol_is_found_at_its_count() {
    // range / 257 == 0x00FF00FF, so the count of 0x00FF00FF is 1: symbol 1.
    let mut decoder =
        Ppmd7aDecoder::new(ByteReader::new(vec![0x00, 0xFF, 0x00, 0xFF]), 6, 1 << 20).unwrap();
    let mut out = Vec::new();
    assert_eq!(decoder.read(&mut out, 1), Ok(1));
    assert_eq!(out, vec![1]);
}

#[test]
fn ppmd7a_encoder_checks_its_parameters() {
    for (order, mem) in [(1, 1 << 20), (65, 1 << 20), (6, 0x7FF), (6, 0xFFFF_FFDC)] {
        assert!(matches!(
            Ppmd7aEncoder::new(ByteWriter::new(Vec::new()), order, mem),
            Err(Error::InvalidParameter)
        ));
    }
}

#[test]
fn ppmd7a_decoder_starts_with_a_full_range() {
    let d = Ppmd7aDecoder::new(ByteReader::new(vec![0, 0, 0, 5, 1, 2, 3]), 6, 1 << 20).unwrap();
    assert_eq!(d.range_decoder_code(), 5);
}

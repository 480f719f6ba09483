use ppmd_rust::range_coding::{
    RangeDecoder, RangeDecoder7a, RangeEncoder, RangeEncoder7a, K_BOT_VALUE,
};
use ppmd_rust::{ByteReader, ByteWriter, Error, IoError};

fn reader(bytes: &[u8]) -> ByteReader {
    ByteReader::new(bytes.to_vec())
}

#[test]
fn classic_decoder_starts_after_a_zero_byte_and_four_code_bytes() {
    let d = RangeDecoder::new(reader(&[0, 1, 2, 3, 4, 5])).unwrap();
    assert_eq!(d.code(), 0x0102_0304);
    assert_eq!(d.range(), 0xFFFF_FFFF);
    assert_eq!(d.reader.position(), 5);
}

#[test]
fn classic_decoder_rejects_a_bad_start() {
    assert!(matches!(
        RangeDecoder::new(reader(&[])),
        Err(Error::IoError(IoError::UnexpectedEof))
    ));
    assert!(matches!(
        RangeDecoder::new(reader(&[1, 0, 0, 0, 0])),
        Err(Error::RangeDecoderInitialization)
    ));
    assert!(matches!(
        RangeDecoder::new(reader(&[0, 1, 2])),
        Err(Error::IoError(IoError::UnexpectedEof))
    ));
    assert!(matches!(
        RangeDecoder::new(reader(&[0, 0xFF, 0xFF, 0xFF, 0xFF])),
        Err(Error::RangeDecoderInitialization)
    ));
}

#[test]
fn carryless_decoder_starts_with_four_code_bytes() {
    let d = RangeDecoder7a::new(reader(&[0x12, 0x34, 0x56, 0x78, 0x9A])).unwrap();
    assert_eq!(d.code(), 0x1234_5678);
    assert_eq!(d.range(), 0xFFFF_FFFF);
    assert_eq!(d.low, 0);
    assert_eq!(d.reader.position(), 4);
    assert!(matches!(
        RangeDecoder7a::new(reader(&[1, 2, 3])),
        Err(Error::IoError(IoError::UnexpectedEof))
    ));
    assert!(matches!(
        RangeDecoder7a::new(reader(&[0xFF, 0xFF, 0xFF, 0xFF])),
        Err(Error::RangeDecoderInitialization)
    ));
}

#[test]
fn classic_threshold_divides_the_range() {
    let mut d = RangeDecoder::new(reader(&[0, 0x01, 0x02, 0x03, 0x04])).unwrap();
    let count = d.get_threshold(256);
    assert_eq!(d.range(), 0x00FF_FFFF);
    assert_eq!(count, 0x0102_0304 / 0x00FF_FFFF);
    assert_eq!(count, 1);
}

#[test]
fn classic_decode_moves_in_bytes_when_the_range_is_small() {
    let mut d = RangeDecoder::new(reader(&[0, 0x00, 0x00, 0x10, 0x00, 0xAB, 0xCD])).unwrap();
    d.range = 0x100;
    d.decode(1, 2);
    assert_eq!(d.code(), 0x1000 - 0x100);
    assert_eq!(d.range(), 0x200);
    d.normalize_remote().unwrap();
    assert_eq!(d.range(), 0x0200_0000);
    assert_eq!(d.code(), 0x0F00_ABCD);
    assert!(d.reader.is_empty());
}

#[test]
fn classic_normalize_reports_a_short_stream() {
    let mut d = RangeDecoder::new(reader(&[0, 0, 0, 0, 1, 0x77])).unwrap();
    d.range = 0x10;
    assert_eq!(d.normalize_remote(), Err(IoError::UnexpectedEof));
    assert_eq!(d.code(), 0x0000_0177);
    assert_eq!(d.range(), 0x1000);
}

#[test]
fn classic_binary_decisions() {
    let mut d = RangeDecoder::new(reader(&[0, 0x40, 0, 0, 0, 0x11])).unwrap();
    d.decode_bit_1(0x1000_0000);
    assert_eq!(d.code(), 0x3000_0000);
    assert_eq!(d.range(), 0xEFFF_FFFF);
    d.decode_bit_0(0x00FF_0000).unwrap();
    assert_eq!(d.range(), 0xFF00_0000);
    assert_eq!(d.code(), 0x0000_0011);
}

#[test]
fn carryless_decoder_keeps_code_plus_low_equal_to_the_last_four_bytes() {
    let bytes = [0x10, 0x20, 0x30, 0x40, 0x50, 0x60, 0x70];
    let mut d = RangeDecoder7a::new(reader(&bytes)).unwrap();
    d.decode(3, 5);
    let pos = d.reader.position();
    let w = u32::from_be_bytes([bytes[pos - 4], bytes[pos - 3], bytes[pos - 2], bytes[pos - 1]]);
    assert_eq!(d.code().wrapping_add(d.low), w);
    d.range = 0x10;
    d.normalize_remote().unwrap();
    let pos = d.reader.position();
    assert!(pos > 4);
    let w = u32::from_be_bytes([bytes[pos - 4], bytes[pos - 3], bytes[pos - 2], bytes[pos - 1]]);
    assert_eq!(d.code().wrapping_add(d.low), w);
    assert!(d.range() >= K_BOT_VALUE);
}

#[test]
fn carryless_decoder_cuts_a_small_range_at_the_boundary() {
    let mut d = RangeDecoder7a::new(reader(&[0, 0, 0, 0, 0xAA, 0xBB])).unwrap();
    d.low = 0x00FF_FFF0;
    d.code = 0u32.wrapping_sub(0x00FF_FFF0);
    d.range = 0x20;
    d.normalize_remote().unwrap();
    // cut to 0x10, shifted; cut again to 0x1000, shifted
    assert_eq!(d.range(), 0x0010_0000);
    assert_eq!(d.low, 0xFFF0_0000);
    assert_eq!(d.reader.position(), 6);
    assert_eq!(d.code().wrapping_add(d.low), 0x0000_AABB);
}

#[test]
fn carryless_decoder_on_a_short_stream_reads_to_the_end() {
    let mut d = RangeDecoder7a::new(reader(&[1, 2, 3, 4])).unwrap();
    d.range = 1;
    assert_eq!(d.normalize_remote(), Err(IoError::UnexpectedEof));
    assert!(d.reader.is_empty());
}

#[test]
fn classic_encoder_propagates_a_carry_into_held_back_bytes() {
    let mut e = RangeEncoder::new(ByteWriter::new(Vec::new()));
    e.cache = 0x12;
    e.cache_size = 3;
    e.low = 0x1_0000_0005;
    e.range = 0x1000;
    e.shift_low();
    assert_eq!(e.writer.as_slice(), &[0x13, 0x00, 0x00]);
    assert_eq!(e.cache, 0x00);
    assert_eq!(e.cache_size, 1);
    assert_eq!(e.low, 0x500);
}

#[test]
fn classic_encoder_holds_back_ff_bytes() {
    let mut e = RangeEncoder::new(ByteWriter::new(Vec::new()));
    e.low = 0xFF12_3456;
    e.range = 0x10;
    e.shift_low();
    assert!(e.writer.as_slice().is_empty());
    assert_eq!(e.cache_size, 2);
    assert_eq!(e.low, 0x1234_5600);
}

#[test]
fn classic_encoder_flush_writes_five_shifts() {
    let mut e = RangeEncoder::new(ByteWriter::new(Vec::new()));
    e.low = 0x0102_0304;
    e.flush();
    assert_eq!(e.writer.as_slice(), &[0x00, 0x01, 0x02, 0x03, 0x04]);
    assert_eq!(e.low, 0);
}

#[test]
fn carryless_encoder_flush_writes_low_high_byte_first() {
    let mut e = RangeEncoder7a::new(ByteWriter::new(vec![9]));
    e.low = 0xA1B2_C3D4;
    e.flush();
    assert_eq!(e.writer.as_slice(), &[9, 0xA1, 0xB2, 0xC3, 0xD4]);
    assert_eq!(e.low, 0);
}

#[test]
fn carryless_encoder_binary_decisions() {
    let mut e = RangeEncoder7a::new(ByteWriter::new(Vec::new()));
    e.encode_bit_1(0x100);
    assert_eq!(e.low, 0x100);
    assert_eq!(e.range(), 0xFFFF_C000u32.wrapping_sub(0x100));
    e.encode_bit_0(0x10);
    assert!(e.range() >= K_BOT_VALUE);
    assert_eq!(e.writer.len(), 3);
}

/// A sequence of parts (start, size, total) of the range.
fn symbols() -> Vec<(u32, u32, u32)> {
    let mut v = Vec::new();
    let mut x: u32 = 12345;
    for i in 0..2000u32 {
        x = x.wrapping_mul(1103515245).wrapping_add(12345);
        let total = 1 + (x >> 20) % 3000;
        let start = (x >> 4) % total;
        let size = 1 + (x >> 8) % (total - start);
        v.push((start, size, total));
        if i % 7 == 0 {
            v.push((0, 1, 16000));
        }
    }
    v
}

#[test]
fn carryless_coders_round_trip() {
    let syms = symbols();
    let mut e = RangeEncoder7a::new(ByteWriter::new(Vec::new()));
    for &(start, size, total) in &syms {
        e.div_range(total);
        e.encode_final(start, size);
    }
    e.flush();
    let bytes = e.writer.into_inner();

    let mut d = RangeDecoder7a::new(ByteReader::new(bytes)).unwrap();
    for &(start, size, total) in &syms {
        let count = d.get_threshold(total);
        assert!(start <= count && count < start + size);
        d.decode_final(start, size).unwrap();
    }
    assert!(d.reader.is_empty());
}

#[test]
fn classic_coders_round_trip() {
    let syms = symbols();
    let mut e = RangeEncoder::new(ByteWriter::new(Vec::new()));
    for &(start, size, total) in &syms {
        e.div_range(total);
        e.encode_final(start, size);
    }
    e.flush();
    let bytes = e.writer.into_inner();

    let mut d = RangeDecoder::new(ByteReader::new(bytes)).unwrap();
    for &(start, size, total) in &syms {
        let count = d.get_threshold(total);
        assert!(start <= count && count < start + size);
        d.decode_final(start, size).unwrap();
    }
    assert!(d.reader.is_empty());
}

#[test]
fn carryless_round_trip_with_binary_steps_and_late_normalization() {
    // Each step: a binary decision with its bound, or a part of the range coded
    // without normalizing, followed by the remote normalization of an escape.
    let mut x: u32 = 777;
    let mut steps = Vec::new();
    for _ in 0..3000 {
        x = x.wrapping_mul(1103515245).wrapping_add(12345);
        steps.push(x);
    }
    let mut e = RangeEncoder7a::new(ByteWriter::new(Vec::new()));
    for &x in &steps {
        let prob = 1 + (x >> 4) % 0x3FFF;
        match x % 3 {
            0 => {
                let bound = (e.range() >> 14) * prob;
                if (x >> 20) & 1 == 0 {
                    e.encode_bit_0(bound);
                } else {
                    e.encode_bit_1(bound);
                    e.normalize_remote();
                }
            }
            _ => {
                let total = 1 + (x >> 18) % 500;
                let start = (x >> 6) % total;
                e.div_range(total);
                e.encode(start, 1);
                e.normalize_remote();
            }
        }
    }
    e.flush();
    let bytes = e.writer.into_inner();
    let mut d = RangeDecoder7a::new(ByteReader::new(bytes)).unwrap();
    for &x in &steps {
        let prob = 1 + (x >> 4) % 0x3FFF;
        match x % 3 {
            0 => {
                let bound = (d.range() >> 14) * prob;
                let bit = (x >> 20) & 1;
                assert_eq!(d.code() >= bound, bit == 1);
                if bit == 0 {
                    d.decode_bit_0(bound).unwrap();
                } else {
                    d.decode_bit_1(bound);
                    d.normalize_remote().unwrap();
                }
            }
            _ => {
                let total = 1 + (x >> 18) % 500;
                let start = (x >> 6) % total;
                assert_eq!(d.get_threshold(total), start);
                d.decode(start, 1);
                d.normalize_remote().unwrap();
            }
        }
    }
    assert!(d.reader.is_empty());
}

#[test]
fn classic_round_trip_with_binary_steps_and_late_normalization() {
    let mut x: u32 = 4242;
    let mut steps = Vec::new();
    for _ in 0..3000 {
        x = x.wrapping_mul(1103515245).wrapping_add(12345);
        steps.push(x);
    }
    let mut e = RangeEncoder::new(ByteWriter::new(Vec::new()));
    for &x in &steps {
        let prob = 1 + (x >> 4) % 0x3FFF;
        match x % 3 {
            0 => {
                let bound = (e.range() >> 14) * prob;
                if (x >> 20) & 1 == 0 {
                    e.encode_bit_0(bound);
                } else {
                    e.encode_bit_1(bound);
                    e.normalize_remote();
                }
            }
            _ => {
                let total = 1 + (x >> 18) % 500;
                let start = (x >> 6) % total;
                e.div_range(total);
                e.encode(start, 1);
                e.normalize_remote();
            }
        }
    }
    e.flush();
    let bytes = e.writer.into_inner();
    assert_eq!(bytes[0], 0);
    let mut d = RangeDecoder::new(ByteReader::new(bytes)).unwrap();
    for &x in &steps {
        let prob = 1 + (x >> 4) % 0x3FFF;
        match x % 3 {
            0 => {
                let bound = (d.range() >> 14) * prob;
                let bit = (x >> 20) & 1;
                assert_eq!(d.code() >= bound, bit == 1);
                if bit == 0 {
                    d.decode_bit_0(bound).unwrap();
                } else {
                    d.decode_bit_1(bound);
                    d.normalize_remote().unwrap();
                }
            }
            _ => {
                let total = 1 + (x >> 18) % 500;
                let start = (x >> 6) % total;
                assert_eq!(d.get_threshold(total), start);
                d.decode(start, 1);
                d.normalize_remote().unwrap();
            }
        }
    }
    assert!(d.reader.is_empty());
}

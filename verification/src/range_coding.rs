//! The range coders of PPMd: the 7z coder of PPMd7 (with carry propagation in the
//! encoder) and the carryless coder of PPMd var.H (PPMd7a), each as a decoder and an
//! encoder over in-memory byte streams.

use vstd::prelude::*;

use crate::byte_io::{ByteReader, ByteWriter};
use crate::error::{Error, IoError};

verus! {

broadcast use crate::byte_io::ByteReader::lemma_pos_bound;

/// Below this range the coders move a byte out (in) at the top.
pub const K_TOP_VALUE: u32 = 0x0100_0000;

/// Below this range the carryless coders cut the range at the next boundary.
pub const K_BOT_VALUE: u32 = 0x8000;

/// The scale of the binary context probabilities.
pub const PPMD_BIN_SCALE: u32 = 0x4000;

/// `x` shifted left by one byte, with `b` as its new low byte, in 32 bits.
pub open spec fn shift_in(x: u32, b: u8) -> u32 {
    ((x as int * 256 + b as int) % 0x1_0000_0000) as u32
}

/// `x` after the bytes of `s` are shifted in one after the other.
pub open spec fn feed(x: u32, s: Seq<u8>) -> u32
    decreases s.len(),
{
    if s.len() == 0 {
        x
    } else {
        shift_in(feed(x, s.drop_last()), s.last())
    }
}

/// The four bytes of `s` from `i` on, read as a big-endian number.
pub open spec fn be32(s: Seq<u8>, i: int) -> u32 {
    (s[i] as int * 0x100_0000 + s[i + 1] as int * 0x1_0000 + s[i + 2] as int * 0x100
        + s[i + 3] as int) as u32
}

pub proof fn lemma_shift_in(x: u32, b: u8)
    ensures
        ((x << 8) | (b as u32)) == shift_in(x, b),
{
    assert(((x << 8) | (b as u32)) == ((x as int * 256 + b as int) % 0x1_0000_0000) as u32)
        by (bit_vector);
}

/// Feeding `a` and then `b` is feeding their concatenation.
pub proof fn lemma_feed_concat(x: u32, a: Seq<u8>, b: Seq<u8>)
    ensures
        feed(x, a + b) == feed(feed(x, a), b),
    decreases b.len(),
{
    if b.len() == 0 {
        assert(a + b =~= a);
    } else {
        assert((a + b).drop_last() =~= a + b.drop_last());
        assert((a + b).last() == b.last());
        lemma_feed_concat(x, a, b.drop_last());
    }
}

/// Four fed bytes push out whatever was there before: the result is those bytes.
pub proof fn lemma_feed_four(x: u32, s: Seq<u8>)
    requires
        s.len() == 4,
    ensures
        feed(x, s) == be32(s, 0),
{
    let b0 = s[0];
    let b1 = s[1];
    let b2 = s[2];
    let b3 = s[3];
    assert(s.drop_last().drop_last().drop_last().drop_last() =~= Seq::<u8>::empty());
    assert(s.drop_last().drop_last().drop_last() =~= seq![b0]);
    assert(s.drop_last().drop_last() =~= seq![b0, b1]);
    assert(s.drop_last() =~= seq![b0, b1, b2]);
    let f1 = shift_in(x, b0);
    let f2 = shift_in(f1, b1);
    let f3 = shift_in(f2, b2);
    let f4 = shift_in(f3, b3);
    assert(feed(x, Seq::<u8>::empty()) == x);
    assert(feed(x, seq![b0]) == f1) by {
        assert(seq![b0].drop_last() =~= Seq::<u8>::empty());
    }
    assert(feed(x, seq![b0, b1]) == f2) by {
        assert(seq![b0, b1].drop_last() =~= seq![b0]);
    }
    assert(feed(x, seq![b0, b1, b2]) == f3) by {
        assert(seq![b0, b1, b2].drop_last() =~= seq![b0, b1]);
    }
    assert(f4 as int == b0 as int * 0x100_0000 + b1 as int * 0x1_0000 + b2 as int * 0x100
        + b3 as int) by (bit_vector)
        requires
            f1 == ((x as int * 256 + b0 as int) % 0x1_0000_0000) as u32,
            f2 == ((f1 as int * 256 + b1 as int) % 0x1_0000_0000) as u32,
            f3 == ((f2 as int * 256 + b2 as int) % 0x1_0000_0000) as u32,
            f4 == ((f3 as int * 256 + b3 as int) % 0x1_0000_0000) as u32,
    ;
}

/// Once four or more bytes have been fed, the result is the last four of them.
pub proof fn lemma_feed_window(x: u32, s: Seq<u8>)
    requires
        s.len() >= 4,
    ensures
        feed(x, s) == be32(s, s.len() - 4),
{
    let k = s.len() - 4;
    let a = s.subrange(0, k);
    let b = s.subrange(k, s.len() as int);
    assert(s =~= a + b);
    lemma_feed_concat(x, a, b);
    lemma_feed_four(feed(x, a), b);
}

/// Shifting a range below `K_TOP_VALUE` left by a byte multiplies it by 256.
pub proof fn lemma_shl8_small(r: u32)
    requires
        r < K_TOP_VALUE,
    ensures
        (r << 8) as int == r as int * 256,
{
    assert((r << 8) as int == r as int * 256) by (bit_vector)
        requires
            r < 0x0100_0000u32,
    ;
}

/// 256 to the power `k`.
pub open spec fn pow256(k: nat) -> int
    decreases k,
{
    if k == 0 {
        1
    } else {
        256 * pow256((k - 1) as nat)
    }
}

/// The next byte of the stream is `rest[j]`, fed after `rest.take(j)`.
pub proof fn lemma_feed_take_step(x: u32, rest: Seq<u8>, j: int)
    requires
        0 <= j < rest.len(),
    ensures
        feed(x, rest.take(j + 1)) == shift_in(feed(x, rest.take(j)), rest[j]),
{
    assert(rest.take(j + 1).drop_last() =~= rest.take(j));
    assert(rest.take(j + 1).last() == rest[j]);
}

/// A reader that moved from `pos0` to `pos1` over `data` has, as its rest, the old rest
/// without its first `pos1 - pos0` bytes.
pub proof fn lemma_rest_skip(data: Seq<u8>, pos0: int, pos1: int)
    requires
        0 <= pos0 <= pos1 <= data.len(),
    ensures
        data.subrange(pos1, data.len() as int) =~= data.subrange(pos0, data.len() as int).subrange(
            pos1 - pos0,
            data.len() - pos0,
        ),
{
}

/// How many bytes the 7z decoder moves in, at most `max` (1 or 2), to bring `range`
/// to `K_TOP_VALUE` or above.
pub open spec fn classic_needed(range: u32, max: nat) -> nat {
    if max == 0 || range >= K_TOP_VALUE {
        0
    } else if max == 1 || range as int * 256 >= K_TOP_VALUE {
        1
    } else {
        2
    }
}

/// The 7z range decoder of PPMd7.
pub struct RangeDecoder {
    pub range: u32,
    pub code: u32,
    pub reader: ByteReader,
}

impl RangeDecoder {
    /// Starts decoding: the stream must begin with a zero byte and four bytes of code
    /// that are not all ones.
    pub fn new(reader: ByteReader) -> (r: Result<RangeDecoder, Error>)
        ensures
            ({
                let d = reader.data();
                let p = reader.pos() as int;
                let n = d.len() - p;
                &&& n == 0 ==> r == Err::<RangeDecoder, Error>(Error::IoError(IoError::UnexpectedEof))
                &&& n >= 1 && d[p] != 0 ==> r == Err::<RangeDecoder, Error>(Error::RangeDecoderInitialization)
                &&& 1 <= n < 5 && d[p] == 0 ==> r == Err::<RangeDecoder, Error>(Error::IoError(IoError::UnexpectedEof))
                &&& n >= 5 && d[p] == 0 && be32(d, p + 1) == 0xFFFF_FFFF ==> r == Err::<RangeDecoder, Error>(Error::RangeDecoderInitialization)
                &&& n >= 5 && d[p] == 0 && be32(d, p + 1) != 0xFFFF_FFFF ==> (r matches Ok(dec) && {
                    &&& dec.range == 0xFFFF_FFFF
                    &&& dec.code == be32(d, p + 1)
                    &&& dec.reader.data() == d
                    &&& dec.reader.pos() == p + 5
                })
            }),
    {
        let ghost d = reader.data();
        let ghost p = reader.pos() as int;
        let mut decoder = RangeDecoder { range: 0xFFFF_FFFF, code: 0, reader };
        let first = match decoder.reader.read_byte() {
            Ok(b) => b,
            Err(e) => return Err(Error::IoError(e)),
        };
        if first != 0 {
            return Err(Error::RangeDecoderInitialization);
        }
        let mut i: usize = 0;
        while i < 4
            invariant
                0 <= i <= 4,
                0 <= p,
                d == reader.data(),
                p == reader.pos(),
                d.len() - p >= 1,
                d[p] == 0,
                decoder.range == 0xFFFF_FFFF,
                decoder.reader.data() == d,
                decoder.reader.pos() == p + 1 + i,
                decoder.reader.pos() <= d.len(),
                decoder.code == feed(0, d.subrange(p + 1, p + 1 + i)),
            ensures
                i == 4,
            decreases 4 - i,
        {
            let b = match decoder.reader.read_byte() {
                Ok(b) => b,
                Err(e) => return Err(Error::IoError(e)),
            };
            proof {
                lemma_shift_in(decoder.code, b);
                let ghost j = p + 1 + i;
                assert(d.subrange(p + 1, j + 1).drop_last() =~= d.subrange(p + 1, j));
                assert(d.subrange(p + 1, j + 1).last() == b);
            }
            decoder.code = (decoder.code << 8) | (b as u32);
            i = i + 1;
        }
        proof {
            lemma_feed_four(0, d.subrange(p + 1, p + 5));
        }
        if decoder.code == 0xFFFF_FFFF {
            return Err(Error::RangeDecoderInitialization);
        }
        Ok(decoder)
    }
}


/// The decoder `new` is `old` with the next `k` bytes of the stream moved in: the code
/// took them in at its low end and the range grew by a byte for each.
pub open spec fn classic_moved_in(old: RangeDecoder, new: RangeDecoder, k: nat) -> bool {
    &&& new.reader.data() == old.reader.data()
    &&& new.reader.pos() == old.reader.pos() + k
    &&& new.code == feed(old.code, old.reader.rest().take(k as int))
    &&& new.range as int == old.range as int * pow256(k)
}

/// The outcome of moving in `need` bytes when `old.reader` may hold fewer: as many as
/// there are are moved in, and the result is an error exactly when some were missing.
pub open spec fn classic_normalized(old: RangeDecoder, new: RangeDecoder, need: nat, r: Result<(), IoError>) -> bool {
    let n = old.reader.rest().len();
    &&& old.reader.pos() <= old.reader.data().len()
    &&& n >= need ==> r == Ok::<(), IoError>(()) && classic_moved_in(old, new, need)
    &&& n < need ==> r == Err::<(), IoError>(IoError::UnexpectedEof) && classic_moved_in(old, new, n)
}

impl RangeDecoder {
    /// The current range.
    pub fn range(&self) -> (r: u32)
        ensures
            r == self.range,
    {
        self.range
    }

    /// The current code.
    pub fn code(&self) -> (r: u32)
        ensures
            r == self.code,
    {
        self.code
    }

    /// Divides the range into `total` parts and tells in which part the code lies.
    pub fn get_threshold(&mut self, total: u32) -> (count: u32)
        requires
            total != 0,
            old(self).range / total != 0,
        ensures
            final(self).range == old(self).range / total,
            count == old(self).code / final(self).range,
            final(self).code == old(self).code,
            final(self).reader == old(self).reader,
    {
        self.range = self.range / total;
        self.code / self.range
    }

    /// Reads the next byte of the stream.
    pub fn read_byte(&mut self) -> (r: Result<u32, IoError>)
        ensures
            final(self).range == old(self).range,
            final(self).code == old(self).code,
            final(self).reader.data() == old(self).reader.data(),
            old(self).reader.pos() <= old(self).reader.data().len(),
            old(self).reader.rest().len() > 0 ==> {
                &&& r == Ok::<u32, IoError>(old(self).reader.rest()[0] as u32)
                &&& final(self).reader.pos() == old(self).reader.pos() + 1
            },
            old(self).reader.rest().len() == 0 ==> {
                &&& r == Err::<u32, IoError>(IoError::UnexpectedEof)
                &&& final(self).reader.pos() == old(self).reader.pos()
            },
    {
        let b = self.reader.read_byte()?;
        Ok(b as u32)
    }

    /// Moves the next byte of the stream into the code, and grows the range by a byte.
    fn shift_byte(&mut self) -> (r: Result<(), IoError>)
        requires
            old(self).range < K_TOP_VALUE,
        ensures
            classic_normalized(*old(self), *final(self), 1, r),
    {
        let ghost old_self = *self;
        let b = self.read_byte()?;
        proof {
            lemma_shift_in(self.code, b as u8);
            lemma_feed_take_step(self.code, old_self.reader.rest(), 0);
            assert(old_self.reader.rest().take(0) =~= Seq::<u8>::empty());
            assert(feed(self.code, Seq::<u8>::empty()) == self.code);
        }
        self.code = (self.code << 8) | b;
        self.range = self.range << 8;
        proof {
            lemma_shl8_small(old_self.range);
            assert(pow256(1) == 256) by {
                assert(pow256(0) == 1);
            }
        }
        Ok(())
    }

    /// Moves in one byte if the range has fallen below `K_TOP_VALUE`.
    pub fn normalize_1(&mut self) -> (r: Result<(), IoError>)
        ensures
            classic_normalized(*old(self), *final(self), classic_needed(old(self).range, 1), r),
    {
        let ghost old_self = *self;
        proof {
            assert(old_self.reader.rest().take(0) =~= Seq::<u8>::empty());
        }
        if self.range < K_TOP_VALUE {
            self.shift_byte()?;
        }
        Ok(())
    }

    /// Moves in up to two bytes, while the range is below `K_TOP_VALUE`.
    pub fn normalize_remote(&mut self) -> (r: Result<(), IoError>)
        ensures
            classic_normalized(*old(self), *final(self), classic_needed(old(self).range, 2), r),
    {
        let ghost s0 = *self;
        proof {
            assert(s0.reader.rest().take(0) =~= Seq::<u8>::empty());
            assert(feed(s0.code, Seq::<u8>::empty()) == s0.code);
            assert(pow256(0) == 1);
            assert(pow256(1) == 256);
        }
        if self.range < K_TOP_VALUE {
            self.shift_byte()?;
            let ghost s1 = *self;
            if self.range < K_TOP_VALUE {
                let r = self.shift_byte();
                proof {
                    let rest = s0.reader.rest();
                    lemma_rest_skip(s0.reader.data(), s0.reader.pos() as int, s1.reader.pos() as int);
                    assert(s1.reader.rest() =~= rest.subrange(1, rest.len() as int));
                    assert(pow256(2) == 65536) by {
                        assert(pow256(1) == 256) by {
                            assert(pow256(0) == 1);
                        }
                    }
                    assert(pow256(0) == 1);
                    assert(feed(s1.code, Seq::<u8>::empty()) == s1.code);
                    assert(s1.reader.rest().take(0) =~= Seq::<u8>::empty());
                    if r is Ok {
                        lemma_feed_take_step(s0.code, rest, 1);
                        assert(s1.reader.rest().take(1) =~= seq![rest[1]]);
                        assert(seq![rest[1]].drop_last() =~= Seq::<u8>::empty());
                        assert(self.code == shift_in(s1.code, rest[1]));
                        assert(self.range as int == s0.range as int * 65536);
                    } else {
                        assert(self.code == s1.code);
                    }
                }
                return r;
            }
        }
        Ok(())
    }

    /// Takes the lower part, of width `size`, of a binary split of the range.
    pub fn decode_bit_0(&mut self, size: u32) -> (r: Result<(), IoError>)
        ensures
            ({
                let mid = RangeDecoder { range: size, ..*old(self) };
                classic_normalized(mid, *final(self), classic_needed(size, 1), r)
            }),
    {
        self.range = size;
        self.normalize_1()
    }

    /// Takes the upper part of a binary split of the range at `size`.
    pub fn decode_bit_1(&mut self, size: u32)
        requires
            size <= old(self).code,
            size <= old(self).range,
        ensures
            final(self).code == old(self).code - size,
            final(self).range == old(self).range - size,
            final(self).reader == old(self).reader,
    {
        self.code = self.code - size;
        self.range = self.range - size;
    }

    /// Takes the part `[start, start + size)` of the range, in units of the range.
    pub fn decode(&mut self, start: u32, size: u32)
        requires
            start as int * old(self).range as int <= old(self).code,
            old(self).range as int * size as int <= u32::MAX,
        ensures
            final(self).code == old(self).code - start as int * old(self).range as int,
            final(self).range == old(self).range as int * size as int,
            final(self).reader == old(self).reader,
    {
        self.code = self.code - start * self.range;
        self.range = self.range * size;
    }

    /// Takes the part `[start, start + freq)` of the range and normalizes.
    pub fn decode_final(&mut self, start: u32, freq: u32) -> (r: Result<(), IoError>)
        requires
            start as int * old(self).range as int <= old(self).code,
            old(self).range as int * freq as int <= u32::MAX,
        ensures
            ({
                let mid = RangeDecoder {
                    code: (old(self).code - start as int * old(self).range as int) as u32,
                    range: (old(self).range as int * freq as int) as u32,
                    ..*old(self)
                };
                classic_normalized(mid, *final(self), classic_needed(mid.range, 2), r)
            }),
    {
        self.decode(start, freq);
        self.normalize_remote()
    }
}


// ---------------------------------------------------------------------------------
// The carryless coder of PPMd var.H.
// ---------------------------------------------------------------------------------

/// Whether the carryless coder in state (`low`, `range`) must move another byte: if
/// so, the range it moves it with (cut at the next `K_BOT_VALUE` boundary when the
/// range is small and `low` and `low + range` differ in their top byte).
pub open spec fn carryless_next(low: u32, range: u32) -> Option<u32> {
    if (low ^ low.wrapping_add(range)) < K_TOP_VALUE {
        Some(range)
    } else if range < K_BOT_VALUE {
        Some(0u32.wrapping_sub(low) & 0x7FFFu32)
    } else {
        None
    }
}

/// How many of the low bytes of `low` are left before shifting turns it into zero.
pub open spec fn low_bytes(low: u32) -> nat {
    if low == 0 {
        0
    } else if low & 0xFF_FFFF == 0 {
        1
    } else if low & 0xFFFF == 0 {
        2
    } else if low & 0xFF == 0 {
        3
    } else {
        4
    }
}

/// One step of carryless normalization keeps the range nonzero and brings the loop
/// closer to its end.
pub proof fn lemma_carryless_step(low: u32, range: u32)
    requires
        range != 0,
        carryless_next(low, range) is Some,
    ensures
        ({
            let r = carryless_next(low, range)->0;
            &&& r != 0
            &&& (r << 8) != 0
            &&& low != 0 ==> low_bytes(low << 8) < low_bytes(low)
            &&& low == 0 ==> (low << 8) == 0 && range < (r << 8)
        }),
{
    let r = carryless_next(low, range)->0;
    let w = low.wrapping_add(range);
    assert(w == ((low + range) as u32)) by (bit_vector)
        requires
            w == low.wrapping_add(range),
    ;
    if (low ^ w) < K_TOP_VALUE {
        assert((range << 8) != 0) by (bit_vector)
            requires
                range != 0,
                w == ((low + range) as u32),
                (low ^ w) < 0x0100_0000u32,
        ;
        if low == 0 {
            assert(range < (range << 8) && (low << 8) == 0) by (bit_vector)
                requires
                    range != 0,
                    low == 0,
                    w == ((low + range) as u32),
                    (low ^ w) < 0x0100_0000u32,
            ;
        }
    } else {
        let z = 0u32.wrapping_sub(low);
        assert(z == ((0x1_0000_0000 - low) as u32)) by (bit_vector)
            requires
                z == 0u32.wrapping_sub(low),
        ;
        assert((z & 0x7FFF) != 0 && ((z & 0x7FFF) << 8) != 0) by (bit_vector)
            requires
                w == ((low + range) as u32),
                !((low ^ w) < 0x0100_0000u32),
                range < 0x8000u32,
                z == ((0x1_0000_0000 - low) as u32),
        ;
        if low == 0 {
            assert(false) by (bit_vector)
                requires
                    low == 0,
                    w == ((low + range) as u32),
                    !((low ^ w) < 0x0100_0000u32),
                    range < 0x8000u32,
            ;
        }
    }
    if low != 0 {
        assert(low & 0xFF_FFFF == 0 ==> (low << 8) == 0) by (bit_vector);
        assert(low & 0xFF_FFFF != 0 && low & 0xFFFF == 0 ==> (low << 8) != 0 && ((low << 8) & 0xFF_FFFF) == 0)
            by (bit_vector);
        assert(low & 0xFFFF != 0 && low & 0xFF == 0 ==> ((low << 8) & 0xFF_FFFF) != 0 && ((low << 8) & 0xFFFF) == 0)
            by (bit_vector);
        assert(low & 0xFF != 0 ==> ((low << 8) & 0xFFFF) != 0 && ((low << 8) & 0xFF) == 0)
            by (bit_vector);
    }
}

/// Carryless normalization from (`low`, `range`): the state it ends in, and the top
/// bytes of `low` that it moves out (the encoder writes them, the decoder reads as
/// many).
pub open spec fn carryless_normalized(low: u32, range: u32) -> (u32, u32, Seq<u8>)
    decreases low_bytes(low), 0x1_0000_0000 - range,
    when range != 0
{
    match carryless_next(low, range) {
        None => (low, range, Seq::<u8>::empty()),
        Some(r) => {
            proof {
                lemma_carryless_step(low, range);
            }
            let t = carryless_normalized(low << 8, r << 8);
            (t.0, t.1, seq![(low >> 24) as u8] + t.2)
        },
    }
}

/// The carryless coder's move to the part `[start, start + size)` of its range, in
/// units of the range: the new `low` and `range`.
pub open spec fn carryless_interval(low: u32, range: u32, start: u32, size: u32) -> (u32, u32) {
    (low.wrapping_add(start.wrapping_mul(range)), range.wrapping_mul(size))
}

/// The carryless coder's move to the upper part of a binary split at `size`.
pub open spec fn carryless_upper(low: u32, range: u32, size: u32) -> (u32, u32) {
    (low.wrapping_add(size), (range & 0xFFFF_C000u32).wrapping_sub(size))
}

/// The carryless range decoder of PPMd var.H (PPMd7a).
pub struct RangeDecoder7a {
    pub range: u32,
    pub code: u32,
    pub low: u32,
    pub reader: ByteReader,
}

/// The decoder's code and low add up to the last four bytes it read.
pub open spec fn window(r: ByteReader) -> u32 {
    feed(0, r.data().take(r.pos() as int))
}

/// Shifting a byte into the code and the low end of `low` keeps their sum the
/// window of the bytes read.
pub proof fn lemma_window_shift(code: u32, low: u32, b: u8)
    ensures
        ((code << 8) | (b as u32)).wrapping_add(low << 8) == shift_in(code.wrapping_add(low), b),
{
    let s = code.wrapping_add(low);
    let c2 = (code << 8) | (b as u32);
    let l2 = low << 8;
    let t = c2.wrapping_add(l2);
    assert(t == shift_in(s, b)) by (bit_vector)
        requires
            s == code.wrapping_add(low),
            c2 == (code << 8) | (b as u32),
            l2 == low << 8,
            t == c2.wrapping_add(l2),
    ;
}

/// Moving `t` from the code to `low` keeps their sum.
pub proof fn lemma_window_move(code: u32, low: u32, t: u32)
    ensures
        code.wrapping_sub(t).wrapping_add(low.wrapping_add(t)) == code.wrapping_add(low),
{
    let a = code.wrapping_sub(t);
    let b = low.wrapping_add(t);
    let c = a.wrapping_add(b);
    let s = code.wrapping_add(low);
    assert(c == s) by (bit_vector)
        requires
            a == code.wrapping_sub(t),
            b == low.wrapping_add(t),
            c == a.wrapping_add(b),
            s == code.wrapping_add(low),
    ;
}

/// The decoder `new` is `mid` after carryless normalization, with `r` telling whether
/// the stream held every byte that normalization moved in; on a short stream the
/// reader ends up exhausted.
pub open spec fn carryless_decoder_normalized(
    mid: RangeDecoder7a,
    new: RangeDecoder7a,
    r: Result<(), IoError>,
) -> bool {
    &&& new.wf()
    &&& new.reader.data() == mid.reader.data()
    &&& mid.range == 0 ==> {
        &&& r == Err::<(), IoError>(IoError::UnexpectedEof)
        &&& new.reader.pos() == new.reader.data().len()
    }
    &&& mid.range != 0 ==> ({
        let (l, g, out) = carryless_normalized(mid.low, mid.range);
        let rest = mid.reader.rest();
        &&& rest.len() >= out.len() ==> {
            &&& r == Ok::<(), IoError>(())
            &&& new.low == l
            &&& new.range == g
            &&& new.code == feed(mid.code, rest.take(out.len() as int))
            &&& new.reader.pos() == mid.reader.pos() + out.len()
        }
        &&& rest.len() < out.len() ==> {
            &&& r == Err::<(), IoError>(IoError::UnexpectedEof)
            &&& new.reader.pos() == new.reader.data().len()
        }
    })
}

impl RangeDecoder7a {
    /// The decoder is consistent: its code and low add up to the window of the stream.
    pub open spec fn wf(&self) -> bool {
        self.code.wrapping_add(self.low) == window(self.reader)
    }

    /// Starts decoding: the stream must begin with four bytes of code that are not all
    /// ones.
    pub fn new(reader: ByteReader) -> (r: Result<RangeDecoder7a, Error>)
        ensures
            ({
                let d = reader.data();
                let p = reader.pos() as int;
                let n = d.len() - p;
                &&& n < 4 ==> r == Err::<RangeDecoder7a, Error>(Error::IoError(IoError::UnexpectedEof))
                &&& n >= 4 && be32(d, p) == 0xFFFF_FFFF ==> r == Err::<RangeDecoder7a, Error>(Error::RangeDecoderInitialization)
                &&& n >= 4 && be32(d, p) != 0xFFFF_FFFF ==> (r matches Ok(dec) && {
                    &&& dec.range == 0xFFFF_FFFF
                    &&& dec.code == be32(d, p)
                    &&& dec.low == 0
                    &&& dec.reader.data() == d
                    &&& dec.reader.pos() == p + 4
                    &&& dec.wf()
                })
            }),
    {
        let ghost d = reader.data();
        let ghost p = reader.pos() as int;
        let mut decoder = RangeDecoder7a { range: 0xFFFF_FFFF, code: 0, low: 0, reader };
        let mut i: usize = 0;
        while i < 4
            invariant
                0 <= i <= 4,
                0 <= p,
                d == reader.data(),
                p == reader.pos(),
                decoder.range == 0xFFFF_FFFF,
                decoder.low == 0,
                decoder.reader.data() == d,
                decoder.reader.pos() == p + i,
                decoder.reader.pos() <= d.len(),
                decoder.code == feed(0, d.subrange(p, p + i)),
            ensures
                i == 4,
            decreases 4 - i,
        {
            let b = match decoder.reader.read_byte() {
                Ok(b) => b,
                Err(e) => return Err(Error::IoError(e)),
            };
            proof {
                lemma_shift_in(decoder.code, b);
                let ghost j = p + i;
                assert(d.subrange(p, j + 1).drop_last() =~= d.subrange(p, j));
                assert(d.subrange(p, j + 1).last() == b);
            }
            decoder.code = (decoder.code << 8) | (b as u32);
            i = i + 1;
        }
        proof {
            lemma_feed_four(0, d.subrange(p, p + 4));
            lemma_feed_window(0, d.take(p + 4));
            assert(d.take(p + 4).subrange(p, p + 4) =~= d.subrange(p, p + 4));
            assert(be32(d.take(p + 4), p) == be32(d, p));
            assert(decoder.code.wrapping_add(0) == decoder.code);
        }
        if decoder.code == 0xFFFF_FFFF {
            return Err(Error::RangeDecoderInitialization);
        }
        Ok(decoder)
    }

    /// The current range.
    pub fn range(&self) -> (r: u32)
        ensures
            r == self.range,
    {
        self.range
    }

    /// The current code.
    pub fn code(&self) -> (r: u32)
        ensures
            r == self.code,
    {
        self.code
    }

    /// Reads the next byte of the stream.
    fn read_byte(&mut self) -> (r: Result<u32, IoError>)
        ensures
            final(self).range == old(self).range,
            final(self).code == old(self).code,
            final(self).low == old(self).low,
            final(self).reader.data() == old(self).reader.data(),
            old(self).reader.rest().len() > 0 ==> {
                &&& r == Ok::<u32, IoError>(old(self).reader.rest()[0] as u32)
                &&& final(self).reader.pos() == old(self).reader.pos() + 1
            },
            old(self).reader.rest().len() == 0 ==> {
                &&& r == Err::<u32, IoError>(IoError::UnexpectedEof)
                &&& final(self).reader.pos() == old(self).reader.pos()
            },
    {
        let b = self.reader.read_byte()?;
        Ok(b as u32)
    }

    /// Moves bytes in while the carryless normalization asks for them.
    fn normalize(&mut self) -> (r: Result<(), IoError>)
        requires
            old(self).wf(),
        ensures
            carryless_decoder_normalized(*old(self), *final(self), r),
    {
        let ghost s0 = *self;
        let ghost rest0 = s0.reader.rest();
        let ghost fin = carryless_normalized(s0.low, s0.range);
        let ghost mut i: nat = 0;
        proof {
            assert(rest0.take(0) =~= Seq::<u8>::empty());
            if s0.range != 0 {
                assert(fin.2.subrange(0, fin.2.len() as int) =~= fin.2);
            }
        }
        loop
            invariant
                s0 == *old(self),
                self.wf(),
                self.reader.data() == s0.reader.data(),
                self.reader.pos() == s0.reader.pos() + i,
                i <= rest0.len(),
                rest0 == s0.reader.rest(),
                fin == carryless_normalized(s0.low, s0.range),
                self.code == feed(s0.code, rest0.take(i as int)),
                s0.range == 0 ==> self.range == 0,
                s0.range != 0 ==> {
                    &&& self.range != 0
                    &&& i <= fin.2.len()
                    &&& carryless_normalized(self.low, self.range) == (fin.0, fin.1, fin.2.subrange(i as int, fin.2.len() as int))
                },
            ensures
                self.wf(),
                self.reader.data() == s0.reader.data(),
                self.reader.pos() == s0.reader.pos() + i,
                self.code == feed(s0.code, rest0.take(i as int)),
                s0.range != 0,
                self.low == fin.0,
                self.range == fin.1,
                i == fin.2.len(),
            decreases rest0.len() - i,
        {
            let ghost low0 = self.low;
            let ghost range0 = self.range;
            proof {
                if range0 == 0 {
                    assert((low0 ^ low0.wrapping_add(0u32)) == 0) by (bit_vector);
                    assert((0u32 << 8) == 0) by (bit_vector);
                }
            }
            let x = self.low ^ self.low.wrapping_add(self.range);
            if x < K_TOP_VALUE {
            } else if self.range < K_BOT_VALUE {
                self.range = 0u32.wrapping_sub(self.low) & (K_BOT_VALUE - 1);
            } else {
                proof {
                    assert(carryless_next(low0, range0) is None);
                    if s0.range == 0 {
                        assert(false);
                    }
                }
                break;
            }
            proof {
                assert(carryless_next(low0, range0) == Some(self.range));
            }
            let ghost before = *self;
            let b = match self.read_byte() {
                Ok(b) => b,
                Err(e) => {
                    proof {
                        if s0.range != 0 {
                            assert(fin.2.subrange(i as int, fin.2.len() as int).len() > 0);
                        }
                    }
                    return Err(e);
                },
            };
            proof {
                lemma_shift_in(self.code, b as u8);
                lemma_window_shift(self.code, self.low, b as u8);
                let d = s0.reader.data();
                let pos = before.reader.pos() as int;
                assert(d.take(pos + 1).drop_last() =~= d.take(pos));
                assert(d.take(pos + 1).last() == b as u8);
                assert(rest0[i as int] == b as u8);
                lemma_feed_take_step(s0.code, rest0, i as int);
                if s0.range != 0 {
                    lemma_carryless_step(low0, range0);
                    let t = carryless_normalized(low0 << 8, self.range << 8);
                    assert(carryless_normalized(low0, range0) == (t.0, t.1, seq![(low0 >> 24) as u8] + t.2));
                    let u = fin.2.subrange(i as int, fin.2.len() as int);
                    assert(u == seq![(low0 >> 24) as u8] + t.2);
                    assert(u.len() == t.2.len() + 1);
                    assert forall|k: int| 0 <= k < t.2.len() implies t.2[k] == fin.2[i + 1 + k] by {
                        assert(u[k + 1] == t.2[k]);
                    }
                    assert(t.2 =~= fin.2.subrange(i + 1int, fin.2.len() as int));
                }
            }
            self.code = (self.code << 8) | b;
            self.range = self.range << 8;
            self.low = self.low << 8;
            proof {
                i = i + 1;
            }
        }
        Ok(())
    }

    /// Divides the range into `total` parts and tells in which part the code lies.
    pub fn get_threshold(&mut self, total: u32) -> (count: u32)
        requires
            total != 0,
            old(self).range / total != 0,
        ensures
            final(self).range == old(self).range / total,
            count == old(self).code / final(self).range,
            final(self).code == old(self).code,
            final(self).low == old(self).low,
            final(self).reader == old(self).reader,
    {
        self.range = self.range / total;
        self.code / self.range
    }

    /// Takes the lower part, of width `size`, of a binary split of the range.
    pub fn decode_bit_0(&mut self, size: u32) -> (r: Result<(), IoError>)
        requires
            old(self).wf(),
        ensures
            carryless_decoder_normalized(RangeDecoder7a { range: size, ..*old(self) }, *final(self), r),
    {
        self.range = size;
        self.normalize()
    }

    /// Takes the upper part of a binary split of the range at `size`.
    pub fn decode_bit_1(&mut self, size: u32)
        requires
            old(self).wf(),
        ensures
            final(self).wf(),
            (final(self).low, final(self).range) == carryless_upper(old(self).low, old(self).range, size),
            final(self).code == old(self).code.wrapping_sub(size),
            final(self).reader == old(self).reader,
    {
        proof {
            lemma_window_move(self.code, self.low, size);
        }
        self.low = self.low.wrapping_add(size);
        self.code = self.code.wrapping_sub(size);
        self.range = (self.range & !(PPMD_BIN_SCALE - 1)).wrapping_sub(size);
        proof {
            assert(!0x3FFFu32 == 0xFFFF_C000u32) by (bit_vector);
        }
    }

    /// Takes the part `[start, start + size)` of the range, in units of the range.
    pub fn decode(&mut self, start: u32, size: u32)
        requires
            old(self).wf(),
        ensures
            final(self).wf(),
            (final(self).low, final(self).range) == carryless_interval(old(self).low, old(self).range, start, size),
            final(self).code == old(self).code.wrapping_sub(start.wrapping_mul(old(self).range)),
            final(self).reader == old(self).reader,
    {
        let start = start.wrapping_mul(self.range);
        proof {
            lemma_window_move(self.code, self.low, start);
        }
        self.low = self.low.wrapping_add(start);
        self.code = self.code.wrapping_sub(start);
        self.range = self.range.wrapping_mul(size);
    }

    /// Takes the part `[start, start + freq)` of the range and normalizes.
    pub fn decode_final(&mut self, start: u32, freq: u32) -> (r: Result<(), IoError>)
        requires
            old(self).wf(),
        ensures
            ({
                let (l, g) = carryless_interval(old(self).low, old(self).range, start, freq);
                let mid = RangeDecoder7a {
                    low: l,
                    range: g,
                    code: old(self).code.wrapping_sub(start.wrapping_mul(old(self).range)),
                    ..*old(self)
                };
                carryless_decoder_normalized(mid, *final(self), r)
            }),
    {
        self.decode(start, freq);
        self.normalize()
    }

    /// Normalizes after the model's escape to a shorter context.
    pub fn normalize_remote(&mut self) -> (r: Result<(), IoError>)
        requires
            old(self).wf(),
        ensures
            carryless_decoder_normalized(*old(self), *final(self), r),
    {
        self.normalize()
    }
}


/// Carryless normalization from a nonzero range ends in a state that needs no more
/// bytes, with a range of at least `K_BOT_VALUE`.
pub proof fn lemma_carryless_normalized_ends(low: u32, range: u32)
    requires
        range != 0,
    ensures
        ({
            let (l, g, out) = carryless_normalized(low, range);
            &&& carryless_next(l, g) is None
            &&& g >= K_BOT_VALUE
        }),
    decreases low_bytes(low), 0x1_0000_0000 - range,
{
    match carryless_next(low, range) {
        None => {},
        Some(r) => {
            lemma_carryless_step(low, range);
            lemma_carryless_normalized_ends(low << 8, r << 8);
        },
    }
}

// ---------------------------------------------------------------------------------
// The encoders.
// ---------------------------------------------------------------------------------

/// One `shift_low` of the 7z encoder from (`low`, `cache`, `cache_size`): the new
/// `low`, `cache` and `cache_size`, and the bytes written. When the top byte of the
/// 32-bit `low` is settled (below 0xFF, or a carry came in) the cached byte plus the
/// carry and the pending 0xFF bytes plus the carry go out; otherwise one more 0xFF
/// byte is left pending.
pub open spec fn shift_low_spec(low: u64, cache: u8, cache_size: u64) -> (u64, u8, u64, Seq<u8>) {
    let carry = (low as int / 0x1_0000_0000) % 256;
    let next_low = ((low as int % 0x100_0000) * 256) as u64;
    if low < 0xFF00_0000 || low >= 0x1_0000_0000 {
        (
            next_low,
            ((low as int % 0x1_0000_0000) / 0x100_0000) as u8,
            1,
            seq![((cache as int + carry) % 256) as u8] + Seq::new(
                (cache_size - 1) as nat,
                |i: int| ((0xFF + carry) % 256) as u8,
            ),
        )
    } else {
        (next_low, cache, (cache_size + 1) as u64, Seq::<u8>::empty())
    }
}

/// `n` successive `shift_low`s.
pub open spec fn shift_low_n(low: u64, cache: u8, cache_size: u64, n: nat) -> (u64, u8, u64, Seq<u8>)
    decreases n,
{
    if n == 0 {
        (low, cache, cache_size, Seq::<u8>::empty())
    } else {
        let (l1, c1, s1, o1) = shift_low_spec(low, cache, cache_size);
        let (l2, c2, s2, o2) = shift_low_n(l1, c1, s1, (n - 1) as nat);
        (l2, c2, s2, o1 + o2)
    }
}

/// The 7z range encoder of PPMd7, which propagates carries into bytes it holds back.
pub struct RangeEncoder {
    pub range: u32,
    pub cache: u8,
    pub low: u64,
    pub cache_size: u64,
    pub writer: ByteWriter,
}

/// The encoder `new` is `old` after `n` `shift_low`s, with its range left as `range`.
pub open spec fn classic_shifted(old: RangeEncoder, new: RangeEncoder, range: u32, n: nat) -> bool {
    let (l, c, s, out) = shift_low_n(old.low, old.cache, old.cache_size, n);
    &&& new.range == range
    &&& new.low == l
    &&& new.cache == c
    &&& new.cache_size == s
    &&& new.writer.data() == old.writer.data() + out
}

impl RangeEncoder {
    /// The encoder is consistent: at least the cached byte is pending, and `low`
    /// plus `range` stays within 33 bits, so that at most one carry is pending.
    pub open spec fn wf(&self) -> bool {
        &&& self.cache_size >= 1
        &&& (self.low as int + self.range as int) < 0x2_0000_0000
    }

    /// An encoder that writes after the bytes `writer` holds.
    pub fn new(writer: ByteWriter) -> (e: RangeEncoder)
        ensures
            e.range == 0xFFFF_FFFF,
            e.cache == 0,
            e.low == 0,
            e.cache_size == 1,
            e.writer == writer,
            e.wf(),
    {
        RangeEncoder { range: 0xFFFF_FFFF, cache: 0, low: 0, cache_size: 1, writer }
    }

    /// The current range.
    pub fn range(&self) -> (r: u32)
        ensures
            r == self.range,
    {
        self.range
    }

    /// Divides the range into `total` parts.
    pub fn div_range(&mut self, total: u32)
        requires
            total != 0,
        ensures
            final(self).range == old(self).range / total,
            final(self).low == old(self).low,
            final(self).cache == old(self).cache,
            final(self).cache_size == old(self).cache_size,
            final(self).writer == old(self).writer,
    {
        self.range = self.range / total;
    }

    /// Moves the top byte of the 32-bit `low` out: written, together with the held
    /// back bytes, once it can no longer change, or held back itself.
    pub fn shift_low(&mut self)
        requires
            old(self).cache_size >= 1,
            old(self).low < 0x2_0000_0000,
            old(self).cache_size < u64::MAX,
        ensures
            classic_shifted(*old(self), *final(self), old(self).range, 1),
            final(self).low < 0x1_0000_0000,
            final(self).cache_size >= 1,
    {
        let ghost s0 = *self;
        let ghost w0 = self.writer.data();
        let ghost carry = (s0.low as int / 0x1_0000_0000) % 256;
        if self.low < 0xFF00_0000 || (self.low >> 32) != 0 {
            let mut temp: u8 = self.cache;
            let c = (self.low >> 32) as u8;
            proof {
                let lw = s0.low;
                assert(((lw >> 32) as u8) as int == (lw as int / 0x1_0000_0000) % 256) by (bit_vector);
            }
            let ghost first = ((s0.cache as int + carry) % 256) as u8;
            let ghost rest_byte = ((0xFF + carry) % 256) as u8;
            let ghost mut j: nat = 0;
            loop
                invariant_except_break
                    j < s0.cache_size,
                invariant
                    s0 == *old(self),
                    c as int == carry,
                    0 <= carry < 256,
                    first == ((s0.cache as int + carry) % 256) as u8,
                    rest_byte == ((0xFF + carry) % 256) as u8,
                    self.low == s0.low,
                    self.range == s0.range,
                    self.cache == s0.cache,
                    j <= s0.cache_size,
                    self.cache_size == s0.cache_size - j,
                    j == 0 ==> temp == s0.cache && self.writer.data() == w0,
                    j > 0 ==> temp == 0xFF && self.writer.data() == w0 + seq![first] + Seq::new((j - 1) as nat, |i: int| rest_byte),
                ensures
                    self.low == s0.low,
                    self.range == s0.range,
                    self.cache == s0.cache,
                    self.cache_size == 0,
                    self.writer.data() == w0 + seq![first] + Seq::new((s0.cache_size - 1) as nat, |i: int| rest_byte),
                decreases self.cache_size,
            {
                let byte = (temp as u16 + c as u16) as u8;
                proof {
                    let t = temp;
                    let cc = c;
                    assert(((t as u16 + cc as u16) as u8) as int == (t as int + cc as int) % 256) by (bit_vector);
                }
                self.writer.write_byte(byte);
                proof {
                    if j == 0 {
                        assert(byte == first);
                        assert(Seq::new(0, |i: int| rest_byte) =~= Seq::<u8>::empty());
                        assert(w0.push(byte) =~= w0 + seq![first] + Seq::new(0, |i: int| rest_byte));
                    } else {
                        assert(byte == rest_byte);
                        assert(Seq::new((j - 1) as nat, |i: int| rest_byte).push(rest_byte) =~= Seq::new(j as nat, |i: int| rest_byte));
                        assert((w0 + seq![first] + Seq::new((j - 1) as nat, |i: int| rest_byte)).push(byte)
                            =~= w0 + seq![first] + Seq::new(j as nat, |i: int| rest_byte));
                    }
                    j = j + 1;
                }
                temp = 0xFF;
                self.cache_size = self.cache_size - 1;
                if self.cache_size == 0 {
                    break;
                }
            }
            self.cache = ((self.low as u32) >> 24) as u8;
            proof {
                let lw = s0.low;
                assert((((lw as u32) >> 24) as u8) as int == ((lw as int % 0x1_0000_0000) / 0x100_0000))
                    by (bit_vector);
            }
        }
        proof {
            let lw = s0.low;
            assert(((lw >> 32) != 0) == (lw >= 0x1_0000_0000)) by (bit_vector);
        }
        self.cache_size = self.cache_size + 1;
        self.low = ((self.low as u32) << 8) as u64;
        proof {
            let lw = s0.low;
            assert((((lw as u32) << 8) as u64) as int == (lw as int % 0x100_0000) * 256) by (bit_vector);
            let (l1, c1, n1, o1) = shift_low_spec(s0.low, s0.cache, s0.cache_size);
            assert(shift_low_n(l1, c1, n1, 0) == (l1, c1, n1, Seq::<u8>::empty()));
            assert(o1 + Seq::<u8>::empty() =~= o1);
            assert(w0 + o1 =~= self.writer.data());
        }
    }

    /// Moves one byte out if the range has fallen below `K_TOP_VALUE`.
    pub fn normalize_1(&mut self)
        requires
            old(self).wf(),
            old(self).cache_size < u64::MAX,
        ensures
            final(self).wf(),
            ({
                let k = classic_needed(old(self).range, 1);
                classic_shifted(*old(self), *final(self), (old(self).range as int * pow256(k)) as u32, k)
            }),
    {
        let ghost s0 = *self;
        proof {
            assert(pow256(0) == 1);
            assert(pow256(1) == 256);
            assert(Seq::<u8>::empty() + Seq::<u8>::empty() =~= Seq::<u8>::empty());
            assert(s0.writer.data() + Seq::<u8>::empty() =~= s0.writer.data());
        }
        if self.range < K_TOP_VALUE {
            proof {
                lemma_shl8_small(self.range);
            }
            self.range = self.range << 8;
            self.shift_low();
            proof {
                let (l1, c1, n1, o1) = shift_low_spec(s0.low, s0.cache, s0.cache_size);
                assert(shift_low_n(l1, c1, n1, 0) == (l1, c1, n1, Seq::<u8>::empty()));
                assert(o1 + Seq::<u8>::empty() =~= o1);
            }
        }
    }

    /// Moves up to two bytes out, while the range is below `K_TOP_VALUE`.
    pub fn normalize_remote(&mut self)
        requires
            old(self).wf(),
            old(self).cache_size < u64::MAX - 1,
        ensures
            final(self).wf(),
            ({
                let k = classic_needed(old(self).range, 2);
                classic_shifted(*old(self), *final(self), (old(self).range as int * pow256(k)) as u32, k)
            }),
    {
        let ghost s0 = *self;
        proof {
            assert(pow256(0) == 1);
            assert(pow256(1) == 256);
            assert(pow256(2) == 65536);
            assert(s0.writer.data() + Seq::<u8>::empty() =~= s0.writer.data());
        }
        if self.range < K_TOP_VALUE {
            proof {
                lemma_shl8_small(self.range);
            }
            self.range = self.range << 8;
            self.shift_low();
            let ghost s1 = *self;
            proof {
                let (l1, c1, n1, o1) = shift_low_spec(s0.low, s0.cache, s0.cache_size);
                assert(shift_low_n(l1, c1, n1, 0) == (l1, c1, n1, Seq::<u8>::empty()));
                assert(o1 + Seq::<u8>::empty() =~= o1);
            }
            if self.range < K_TOP_VALUE {
                proof {
                    lemma_shl8_small(self.range);
                }
                self.range = self.range << 8;
                self.shift_low();
                proof {
                    let (l1, c1, n1, o1) = shift_low_spec(s0.low, s0.cache, s0.cache_size);
                    let (l2, c2, n2, o2) = shift_low_spec(l1, c1, n1);
                    assert(shift_low_n(l2, c2, n2, 0) == (l2, c2, n2, Seq::<u8>::empty()));
                    assert(o2 + Seq::<u8>::empty() =~= o2);
                    assert(shift_low_n(l1, c1, n1, 1) == (l2, c2, n2, o2));
                    assert(s0.writer.data() + o1 + o2 =~= s0.writer.data() + (o1 + o2));
                }
            }
        }
    }

    /// Takes the lower part, of width `bound`, of a binary split of the range.
    pub fn encode_bit_0(&mut self, bound: u32)
        requires
            old(self).wf(),
            bound <= old(self).range,
            old(self).cache_size < u64::MAX,
        ensures
            final(self).wf(),
            ({
                let k = classic_needed(bound, 1);
                classic_shifted(*old(self), *final(self), (bound as int * pow256(k)) as u32, k)
            }),
    {
        self.range = bound;
        self.normalize_1();
    }

    /// Takes the upper part of a binary split of the range at `bound`.
    pub fn encode_bit_1(&mut self, bound: u32)
        requires
            old(self).wf(),
            bound <= old(self).range,
        ensures
            final(self).wf(),
            final(self).low == old(self).low + bound,
            final(self).range == old(self).range - bound,
            final(self).cache == old(self).cache,
            final(self).cache_size == old(self).cache_size,
            final(self).writer == old(self).writer,
    {
        self.low = self.low + bound as u64;
        self.range = self.range - bound;
    }

    /// Takes the part `[start, start + size)` of the range, in units of the range.
    pub fn encode(&mut self, start: u32, size: u32)
        requires
            old(self).wf(),
            start as int * old(self).range as int <= u32::MAX,
            old(self).range as int * size as int <= u32::MAX,
            (old(self).low as int + start as int * old(self).range as int + old(self).range as int
                * size as int) < 0x2_0000_0000,
        ensures
            final(self).wf(),
            final(self).low == old(self).low + start as int * old(self).range as int,
            final(self).range == old(self).range as int * size as int,
            final(self).cache == old(self).cache,
            final(self).cache_size == old(self).cache_size,
            final(self).writer == old(self).writer,
    {
        self.low = self.low + (start * self.range) as u64;
        self.range = self.range * size;
    }

    /// Takes the part `[start, start + freq)` of the range and normalizes.
    pub fn encode_final(&mut self, start: u32, freq: u32)
        requires
            old(self).wf(),
            old(self).cache_size < u64::MAX - 1,
            start as int * old(self).range as int <= u32::MAX,
            old(self).range as int * freq as int <= u32::MAX,
            (old(self).low as int + start as int * old(self).range as int + old(self).range as int
                * freq as int) < 0x2_0000_0000,
        ensures
            final(self).wf(),
            ({
                let range = old(self).range as int * freq as int;
                let mid = RangeEncoder {
                    low: (old(self).low + start as int * old(self).range as int) as u64,
                    range: range as u32,
                    ..*old(self)
                };
                let k = classic_needed(range as u32, 2);
                classic_shifted(mid, *final(self), (range * pow256(k)) as u32, k)
            }),
    {
        self.encode(start, freq);
        self.normalize_remote();
    }

    /// Writes out what is pending: five `shift_low`s.
    pub fn flush(&mut self)
        requires
            old(self).wf(),
            old(self).cache_size < u64::MAX - 5,
        ensures
            final(self).wf(),
            classic_shifted(*old(self), *final(self), old(self).range, 5),
    {
        let ghost s0 = *self;
        let mut i: usize = 0;
        proof {
            assert(s0.writer.data() + Seq::<u8>::empty() =~= s0.writer.data());
        }
        while i < 5
            invariant
                0 <= i <= 5,
                self.wf(),
                self.range == s0.range,
                self.cache_size <= s0.cache_size + i,
                s0.cache_size < u64::MAX - 5,
                classic_shifted(s0, *self, s0.range, i as nat),
            decreases 5 - i,
        {
            let ghost before = *self;
            self.shift_low();
            proof {
                lemma_shift_low_n_step(s0.low, s0.cache, s0.cache_size, i as nat);
                let (l, c, n, out) = shift_low_n(s0.low, s0.cache, s0.cache_size, i as nat);
                let (l1, c1, n1, o1) = shift_low_spec(l, c, n);
                assert(shift_low_n(l1, c1, n1, 0) == (l1, c1, n1, Seq::<u8>::empty()));
                assert(o1 + Seq::<u8>::empty() =~= o1);
                assert(s0.writer.data() + out + o1 =~= s0.writer.data() + (out + o1));
            }
            i = i + 1;
        }
    }
}

/// `n` `shift_low`s and one more are `n + 1` of them.
pub proof fn lemma_shift_low_n_step(low: u64, cache: u8, cache_size: u64, n: nat)
    ensures
        ({
            let (l, c, s, out) = shift_low_n(low, cache, cache_size, n);
            let (l1, c1, s1, o1) = shift_low_spec(l, c, s);
            shift_low_n(low, cache, cache_size, n + 1) == (l1, c1, s1, out + o1)
        }),
    decreases n,
{
    if n == 0 {
        let (l1, c1, s1, o1) = shift_low_spec(low, cache, cache_size);
        assert(shift_low_n(l1, c1, s1, 0) == (l1, c1, s1, Seq::<u8>::empty()));
        assert(Seq::<u8>::empty() + o1 =~= o1);
        assert(o1 + Seq::<u8>::empty() =~= o1);
    } else {
        let (l1, c1, s1, o1) = shift_low_spec(low, cache, cache_size);
        lemma_shift_low_n_step(l1, c1, s1, (n - 1) as nat);
        let (l, c, s, out) = shift_low_n(l1, c1, s1, (n - 1) as nat);
        let (l2, c2, s2, o2) = shift_low_spec(l, c, s);
        assert(o1 + out + o2 =~= o1 + (out + o2));
    }
}

/// `a + b` `shift_low`s are `a` of them followed by `b` more.
pub proof fn lemma_shift_low_n_split(low: u64, cache: u8, cache_size: u64, a: nat, b: nat)
    ensures
        ({
            let (l, c, s, out) = shift_low_n(low, cache, cache_size, a);
            let (l2, c2, s2, o2) = shift_low_n(l, c, s, b);
            shift_low_n(low, cache, cache_size, a + b) == (l2, c2, s2, out + o2)
        }),
    decreases a,
{
    if a == 0 {
        let (l2, c2, s2, o2) = shift_low_n(low, cache, cache_size, b);
        assert(Seq::<u8>::empty() + o2 =~= o2);
    } else {
        let (l1, c1, s1, o1) = shift_low_spec(low, cache, cache_size);
        lemma_shift_low_n_split(l1, c1, s1, (a - 1) as nat, b);
        let (l, c, s, out) = shift_low_n(l1, c1, s1, (a - 1) as nat);
        let (l2, c2, s2, o2) = shift_low_n(l, c, s, b);
        assert(o1 + out + o2 =~= o1 + (out + o2));
        assert((a + b - 1) as nat == (a - 1) as nat + b);
    }
}


/// The carryless range encoder of PPMd var.H (PPMd7a).
pub struct RangeEncoder7a {
    pub range: u32,
    pub low: u32,
    pub writer: ByteWriter,
}

/// The encoder `new` is `mid` after carryless normalization: it has written the top
/// bytes that normalization moved out.
pub open spec fn carryless_encoder_normalized(mid: RangeEncoder7a, new: RangeEncoder7a) -> bool {
    let (l, g, out) = carryless_normalized(mid.low, mid.range);
    &&& new.low == l
    &&& new.range == g
    &&& new.writer.data() == mid.writer.data() + out
}

/// A stream that is a prefix of another stays one of its extensions.
pub proof fn lemma_prefix_trans(a: Seq<u8>, b: Seq<u8>, c: Seq<u8>)
    requires
        a.is_prefix_of(b),
        b.is_prefix_of(c),
    ensures
        a.is_prefix_of(c),
{
    assert forall|i: int| 0 <= i < a.len() implies a[i] == c[i] by {
        assert(a[i] == b.subrange(0, a.len() as int)[i]);
        assert(b[i] == c.subrange(0, b.len() as int)[i]);
    }
    assert(a =~= c.subrange(0, a.len() as int));
}

/// Bytes written after a stream leave it a prefix.
pub proof fn lemma_prefix_append(b: Seq<u8>, out: Seq<u8>)
    ensures
        b.is_prefix_of(b + out),
{
    assert(b =~= (b + out).subrange(0, b.len() as int));
}

impl RangeEncoder7a {
    /// An encoder that writes after the bytes `writer` holds.
    pub fn new(writer: ByteWriter) -> (e: RangeEncoder7a)
        ensures
            e.range == 0xFFFF_FFFF,
            e.low == 0,
            e.writer == writer,
    {
        RangeEncoder7a { range: 0xFFFF_FFFF, low: 0, writer }
    }

    /// The current range.
    pub fn range(&self) -> (r: u32)
        ensures
            r == self.range,
    {
        self.range
    }

    /// Divides the range into `total` parts.
    pub fn div_range(&mut self, total: u32)
        requires
            total != 0,
        ensures
            final(self).range == old(self).range / total,
            final(self).low == old(self).low,
            final(self).writer == old(self).writer,
    {
        self.range = self.range / total;
    }

    /// Moves bytes out while the carryless normalization asks for them.
    fn normalize(&mut self)
        requires
            old(self).range != 0,
        ensures
            carryless_encoder_normalized(*old(self), *final(self)),
    {
        let ghost s0 = *self;
        let ghost fin = carryless_normalized(s0.low, s0.range);
        let ghost mut i: nat = 0;
        proof {
            assert(fin.2.subrange(0, fin.2.len() as int) =~= fin.2);
            assert(fin.2.take(0) =~= Seq::<u8>::empty());
            assert(s0.writer.data() + Seq::<u8>::empty() =~= s0.writer.data());
        }
        loop
            invariant
                self.range != 0,
                fin == carryless_normalized(s0.low, s0.range),
                i <= fin.2.len(),
                carryless_normalized(self.low, self.range) == (fin.0, fin.1, fin.2.subrange(i as int, fin.2.len() as int)),
                self.writer.data() == s0.writer.data() + fin.2.take(i as int),
            ensures
                self.low == fin.0,
                self.range == fin.1,
                self.writer.data() == s0.writer.data() + fin.2,
            decreases low_bytes(self.low), 0x1_0000_0000 - self.range,
        {
            let ghost low0 = self.low;
            let ghost range0 = self.range;
            let x = self.low ^ self.low.wrapping_add(self.range);
            if x < K_TOP_VALUE {
            } else if self.range < K_BOT_VALUE {
                self.range = 0u32.wrapping_sub(self.low) & (K_BOT_VALUE - 1);
            } else {
                proof {
                    assert(carryless_next(low0, range0) is None);
                    assert(fin.2.take(i as int) =~= fin.2);
                }
                break;
            }
            proof {
                assert(carryless_next(low0, range0) == Some(self.range));
                lemma_carryless_step(low0, range0);
                let t = carryless_normalized(low0 << 8, self.range << 8);
                assert(carryless_normalized(low0, range0) == (t.0, t.1, seq![(low0 >> 24) as u8] + t.2));
                let u = fin.2.subrange(i as int, fin.2.len() as int);
                assert(u == seq![(low0 >> 24) as u8] + t.2);
                assert(u.len() == t.2.len() + 1);
                assert forall|k: int| 0 <= k < t.2.len() implies t.2[k] == fin.2[i + 1 + k] by {
                    assert(u[k + 1] == t.2[k]);
                }
                assert(t.2 =~= fin.2.subrange(i + 1int, fin.2.len() as int));
                assert(fin.2[i as int] == u[0]);
                assert(fin.2.take(i + 1int) =~= fin.2.take(i as int).push((low0 >> 24) as u8));
                assert(s0.writer.data() + fin.2.take(i + 1int) =~= (s0.writer.data() + fin.2.take(i as int)).push((low0 >> 24) as u8));
            }
            self.writer.write_byte((self.low >> 24) as u8);
            self.range = self.range << 8;
            self.low = self.low << 8;
            proof {
                i = i + 1;
            }
        }
    }

    /// Takes the lower part, of width `bound`, of a binary split of the range.
    pub fn encode_bit_0(&mut self, bound: u32)
        requires
            bound != 0,
        ensures
            carryless_encoder_normalized(RangeEncoder7a { range: bound, ..*old(self) }, *final(self)),
            old(self).writer.data().is_prefix_of(final(self).writer.data()),
    {
        self.range = bound;
        self.normalize();
        proof {
            let (l, g, out) = carryless_normalized(old(self).low, bound);
            lemma_prefix_append(old(self).writer.data(), out);
        }
    }

    /// Takes the upper part of a binary split of the range at `bound`.
    pub fn encode_bit_1(&mut self, bound: u32)
        ensures
            (final(self).low, final(self).range) == carryless_upper(old(self).low, old(self).range, bound),
            final(self).writer == old(self).writer,
    {
        self.low = self.low.wrapping_add(bound);
        self.range = (self.range & !(PPMD_BIN_SCALE - 1)).wrapping_sub(bound);
        proof {
            assert(!0x3FFFu32 == 0xFFFF_C000u32) by (bit_vector);
        }
    }

    /// Takes the part `[start, start + size)` of the range, in units of the range.
    pub fn encode(&mut self, start: u32, size: u32)
        ensures
            (final(self).low, final(self).range) == carryless_interval(old(self).low, old(self).range, start, size),
            final(self).writer == old(self).writer,
    {
        self.low = self.low.wrapping_add(start.wrapping_mul(self.range));
        self.range = self.range.wrapping_mul(size);
    }

    /// Takes the part `[start, start + freq)` of the range and normalizes.
    pub fn encode_final(&mut self, start: u32, freq: u32)
        requires
            old(self).range.wrapping_mul(freq) != 0,
        ensures
            ({
                let (l, g) = carryless_interval(old(self).low, old(self).range, start, freq);
                carryless_encoder_normalized(RangeEncoder7a { low: l, range: g, ..*old(self) }, *final(self))
            }),
    {
        self.encode(start, freq);
        self.normalize()
    }

    /// Normalizes after the model's escape to a shorter context.
    pub fn normalize_remote(&mut self)
        requires
            old(self).range != 0,
        ensures
            carryless_encoder_normalized(*old(self), *final(self)),
            old(self).writer.data().is_prefix_of(final(self).writer.data()),
    {
        self.normalize();
        proof {
            let (l, g, out) = carryless_normalized(old(self).low, old(self).range);
            lemma_prefix_append(old(self).writer.data(), out);
        }
    }

    /// Writes the four bytes of `low`, high byte first.
    pub fn flush(&mut self)
        ensures
            final(self).range == old(self).range,
            final(self).low == 0,
            final(self).writer.data() == old(self).writer.data() + seq![
                (old(self).low >> 24) as u8,
                (old(self).low >> 16) as u8,
                (old(self).low >> 8) as u8,
                old(self).low as u8,
            ],
    {
        let ghost l = self.low;
        let ghost w0 = self.writer.data();
        let mut i: usize = 0;
        let ghost bytes = seq![(l >> 24) as u8, (l >> 16) as u8, (l >> 8) as u8, l as u8];
        proof {
            assert(bytes.take(0) =~= Seq::<u8>::empty());
            assert(w0 + Seq::<u8>::empty() =~= w0);
        }
        while i < 4
            invariant
                0 <= i <= 4,
                bytes == seq![(l >> 24) as u8, (l >> 16) as u8, (l >> 8) as u8, l as u8],
                self.range == old(self).range,
                i == 0 ==> self.low == l,
                i == 1 ==> self.low == l << 8,
                i == 2 ==> self.low == l << 16,
                i == 3 ==> self.low == l << 24,
                i == 4 ==> self.low == 0,
                self.writer.data() == w0 + bytes.take(i as int),
            decreases 4 - i,
        {
            proof {
                let lo = self.low;
                if i == 1 {
                    assert(lo == l << 8 ==> (lo >> 24) as u8 == (l >> 16) as u8 && lo << 8 == l << 16) by (bit_vector);
                } else if i == 2 {
                    assert(lo == l << 16 ==> (lo >> 24) as u8 == (l >> 8) as u8 && lo << 8 == l << 24) by (bit_vector);
                } else if i == 3 {
                    assert(lo == l << 24 ==> (lo >> 24) as u8 == l as u8 && lo << 8 == 0) by (bit_vector);
                }
                assert(bytes.take(i + 1int) =~= bytes.take(i as int).push(bytes[i as int]));
                assert(w0 + bytes.take(i + 1int) =~= (w0 + bytes.take(i as int)).push(bytes[i as int]));
            }
            self.writer.write_byte((self.low >> 24) as u8);
            self.low = self.low << 8;
            i = i + 1;
        }
        proof {
            assert(bytes.take(4) =~= bytes);
        }
    }
}


// ---------------------------------------------------------------------------------
// Laws of the coders.
// ---------------------------------------------------------------------------------

/// The carryless encoder and decoder move in lockstep: when both normalize from the
/// same low and range, they end with the same low and range, and the decoder reads
/// exactly as many bytes as the encoder writes.
pub proof fn law_carryless_lockstep(
    enc_mid: RangeEncoder7a,
    enc_new: RangeEncoder7a,
    dec_mid: RangeDecoder7a,
    dec_new: RangeDecoder7a,
    r: Result<(), IoError>,
)
    requires
        carryless_encoder_normalized(enc_mid, enc_new),
        carryless_decoder_normalized(dec_mid, dec_new, r),
        enc_mid.low == dec_mid.low,
        enc_mid.range == dec_mid.range,
        enc_mid.range != 0,
        r is Ok,
    ensures
        enc_new.low == dec_new.low,
        enc_new.range == dec_new.range,
        dec_new.reader.pos() - dec_mid.reader.pos() == enc_new.writer.data().len()
            - enc_mid.writer.data().len(),
        dec_new.range >= K_BOT_VALUE,
{
    lemma_carryless_normalized_ends(enc_mid.low, enc_mid.range);
    let (l, g, out) = carryless_normalized(dec_mid.low, dec_mid.range);
    if dec_mid.reader.rest().len() < out.len() {
        assert(r is Err);
    }
}

/// A code that lies in the part `[start, start + size)` of a range divided into
/// `total` parts is told apart by the threshold: the count the decoder computes lies
/// in `[start, start + size)`, and once the decoder takes that part, the code lies
/// within the new range. This holds for both decoders, which compute the threshold
/// and the narrowed code alike.
pub proof fn law_threshold_selects_interval(range: u32, code: u32, total: u32, start: u32, size: u32)
    requires
        total != 0,
        range / total != 0,
        start as int + size as int <= total as int,
        start as int * (range / total) as int <= code as int,
        (code as int) < (start as int + size as int) * (range / total) as int,
    ensures
        ({
            let r = range / total;
            let count = code / r;
            &&& start <= count < start as int + size as int
            &&& start as int * r as int <= code
            &&& r as int * size as int <= u32::MAX
            &&& (code - start as int * r as int) < r as int * size as int
        }),
{
    let r = range / total;
    let count = code / r;
    assert(r as int * total as int <= range as int) by (nonlinear_arith)
        requires
            r == range / total,
            total != 0,
    ;
    assert(r as int * size as int <= r as int * total as int) by (nonlinear_arith)
        requires
            size <= total,
    ;
    assert(start <= count && (count as int) < start as int + size as int) by (nonlinear_arith)
        requires
            r != 0,
            count == code / r,
            start as int * r as int <= code as int,
            (code as int) < (start as int + size as int) * r as int,
    {
        assert(count as int * r as int <= code as int);
        assert((code as int) < (count as int + 1) * r as int);
        if count < start {
            assert((count as int + 1) * r as int <= start as int * r as int);
        }
        if count as int >= start as int + size as int {
            assert((start as int + size as int) * r as int <= count as int * r as int);
        }
    }
    assert((start as int + size as int) * r as int == start as int * r as int + r as int * size as int)
        by (nonlinear_arith);
}

} // verus!

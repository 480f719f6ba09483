//! The front end of the PPMd7a decoder: parameter checks and the carryless range
//! decoder over the coded stream.

use vstd::prelude::*;

use crate::byte_io::ByteReader;
use crate::error::Error;
use crate::error::IoError;
use crate::ppmd7::coder::{decode_step, SYM_END};
use crate::ppmd7::model::Ppmd7;
use crate::range_coding::{be32, RangeDecoder7a};
use crate::{PPMD7_MAX_MEM_SIZE, PPMD7_MAX_ORDER, PPMD7_MIN_MEM_SIZE, PPMD7_MIN_ORDER};

verus! {

broadcast use crate::byte_io::ByteReader::lemma_pos_bound;

/// A decoder for data compressed with PPMd7 (PPMdH) and the carryless range coder
/// (PPMd7a).
pub struct Ppmd7aDecoder {
    ppmd: Ppmd7<RangeDecoder7a>,
    finished: bool,
}

/// Whether `order` and `mem_size` are within the ranges that PPMd7 accepts.
pub open spec fn ppmd7_params_valid(order: u32, mem_size: u32) -> bool {
    &&& PPMD7_MIN_ORDER <= order <= PPMD7_MAX_ORDER
    &&& PPMD7_MIN_MEM_SIZE <= mem_size <= PPMD7_MAX_MEM_SIZE
}

/// `ms` are the models along `syms.len()` decoding steps from `ms[0]`, the `i`-th
/// step giving the byte `syms[i]`.
pub open spec fn decodes_bytes(ms: Seq<Ppmd7<RangeDecoder7a>>, syms: Seq<u8>) -> bool {
    &&& ms.len() == syms.len() + 1
    &&& forall|i: int| 0 <= i < syms.len() ==> #[trigger] decode_step(ms[i], ms[i + 1], Ok::<i32, IoError>(syms[i] as i32))
}

/// How a read ends after the decoding step that gave `last` and left the model `m`,
/// with `n` bytes decoded before it: a stream that ran out gives the count, as does the
/// end marker followed by a code of zero; anything else is `InvalidData`.
pub open spec fn read_stop(last: Result<i32, IoError>, m: Ppmd7<RangeDecoder7a>, n: nat, r: Result<usize, Error>) -> bool {
    match last {
        Err(_) => r == Ok::<usize, Error>(n as usize),
        Ok(sym) => sym < 0 && if sym == SYM_END && m.rc.code == 0 {
            r == Ok::<usize, Error>(n as usize)
        } else {
            r == Err::<usize, Error>(Error::IoError(IoError::InvalidData))
        },
    }
}

/// A read from the model `m0` of at most `max` bytes decoded the bytes `syms` through
/// the models `ms`, and left the model `m_end`: either it decoded all `max` bytes, or
/// a last step that gave no byte (`last`) finished the decoder and decided the result.
pub open spec fn read_outcome(
    m0: Ppmd7<RangeDecoder7a>,
    ms: Seq<Ppmd7<RangeDecoder7a>>,
    last: Result<i32, IoError>,
    syms: Seq<u8>,
    m_end: Ppmd7<RangeDecoder7a>,
    finished: bool,
    max: nat,
    r: Result<usize, Error>,
) -> bool {
    &&& decodes_bytes(ms, syms)
    &&& ms[0] == m0
    &&& syms.len() <= max
    &&& !finished ==> syms.len() == max && m_end == ms.last() && r == Ok::<usize, Error>(max as usize)
    &&& finished ==> decode_step(ms.last(), m_end, last) && read_stop(last, m_end, syms.len(), r)
}

impl Ppmd7aDecoder {
    /// The model order the decoder was made with.
    pub closed spec fn spec_order(&self) -> u32 {
        self.ppmd.max_order
    }

    /// The model memory size the decoder was made with.
    pub closed spec fn spec_mem_size(&self) -> u32 {
        self.ppmd.size
    }

    /// The stream the decoder reads.
    pub closed spec fn reader(&self) -> ByteReader {
        self.ppmd.rc.reader
    }

    /// The code of the range decoder.
    pub closed spec fn spec_code(&self) -> u32 {
        self.ppmd.rc.code
    }

    /// The range of the range decoder.
    pub closed spec fn spec_range(&self) -> u32 {
        self.ppmd.rc.range
    }

    /// The low end of the range decoder's range.
    pub closed spec fn spec_low(&self) -> u32 {
        self.ppmd.rc.low
    }

    /// The model the decoder decodes with.
    pub closed spec fn model(&self) -> Ppmd7<RangeDecoder7a> {
        self.ppmd
    }

    /// Whether the decoder has seen the end of the data.
    pub closed spec fn spec_finished(&self) -> bool {
        self.finished
    }

    /// The model and the range decoder are consistent.
    pub closed spec fn wf(&self) -> bool {
        &&& self.ppmd.wf()
        &&& self.ppmd.rc.wf()
    }

    /// Creates a decoder over `reader`. `order` must lie between `PPMD7_MIN_ORDER` and
    /// `PPMD7_MAX_ORDER`, `mem_size` between `PPMD7_MIN_MEM_SIZE` and
    /// `PPMD7_MAX_MEM_SIZE`; the stream must begin with four bytes of code that are
    /// not all ones. The model starts with all 256 symbols in its root.
    pub fn new(reader: ByteReader, order: u32, mem_size: u32) -> (r: Result<Ppmd7aDecoder, Error>)
        ensures
            !ppmd7_params_valid(order, mem_size) ==> r == Err::<Ppmd7aDecoder, Error>(Error::InvalidParameter),
            ppmd7_params_valid(order, mem_size) ==> ({
                let d = reader.data();
                let p = reader.pos() as int;
                let n = d.len() - p;
                &&& n < 4 ==> r == Err::<Ppmd7aDecoder, Error>(Error::IoError(crate::error::IoError::UnexpectedEof))
                &&& n >= 4 && be32(d, p) == 0xFFFF_FFFF ==> r == Err::<Ppmd7aDecoder, Error>(Error::RangeDecoderInitialization)
                &&& n >= 4 && be32(d, p) != 0xFFFF_FFFF ==> (r matches Ok(dec) && {
                    &&& dec.wf()
                    &&& dec.spec_order() == order
                    &&& dec.spec_mem_size() == mem_size
                    &&& !dec.spec_finished()
                    &&& dec.spec_code() == be32(d, p)
                    &&& dec.spec_range() == 0xFFFF_FFFF
                    &&& dec.spec_low() == 0
                    &&& dec.model().started()
                    &&& dec.reader().data() == d
                    &&& dec.reader().pos() == p + 4
                })
            }),
    {
        if !(PPMD7_MIN_ORDER <= order && order <= PPMD7_MAX_ORDER)
            || !(PPMD7_MIN_MEM_SIZE <= mem_size && mem_size <= PPMD7_MAX_MEM_SIZE) {
            return Err(Error::InvalidParameter);
        }
        let rc = RangeDecoder7a::new(reader)?;
        let ppmd = Ppmd7::construct(rc, order, mem_size);
        Ok(Ppmd7aDecoder { ppmd, finished: false })
    }

    /// The underlying stream.
    pub fn get_ref(&self) -> (r: &ByteReader)
        ensures
            *r == self.reader(),
    {
        &self.ppmd.rc.reader
    }

    /// The underlying stream, for changes. Changing it may break the decoding that
    /// follows.
    pub fn get_mut(&mut self) -> (r: &mut ByteReader)
        ensures
            *r == old(self).reader(),
            final(self).reader() == *final(r),
            final(self).spec_order() == old(self).spec_order(),
            final(self).spec_mem_size() == old(self).spec_mem_size(),
            final(self).spec_code() == old(self).spec_code(),
            final(self).spec_range() == old(self).spec_range(),
            final(self).spec_low() == old(self).spec_low(),
            final(self).model() == (Ppmd7 { rc: final(self).model().rc, ..old(self).model() }),
            final(self).spec_finished() == old(self).spec_finished(),
    {
        &mut self.ppmd.rc.reader
    }

    /// The underlying stream, giving up the decoder.
    pub fn into_inner(self) -> (r: ByteReader)
        ensures
            r == self.reader(),
    {
        self.ppmd.rc.reader
    }

    /// The code of the range decoder; zero after a complete stream with an end marker.
    pub fn range_decoder_code(&self) -> (c: u32)
        ensures
            c == self.spec_code(),
    {
        self.ppmd.rc.code
    }

    /// Decodes up to `max` bytes and appends them to `buf`; returns how many.
    ///
    /// Decoding stops at the end marker, after which the decoder is finished and reads
    /// nothing more; the end marker must be followed by a code of zero. A stream that
    /// ends before the end marker also finishes the decoder, with the bytes decoded
    /// before. A symbol outside every part of the range, or an end marker with a
    /// code other than zero, is `InvalidData`.
    pub fn read(&mut self, buf: &mut Vec<u8>, max: usize) -> (r: Result<usize, Error>)
        requires
            old(self).wf(),
        ensures
            final(self).wf(),
            final(self).reader().data() == old(self).reader().data(),
            final(self).spec_order() == old(self).spec_order(),
            final(self).spec_mem_size() == old(self).spec_mem_size(),
            old(self).spec_finished() || max == 0 ==> r == Ok::<usize, Error>(0) && *final(self) == *old(self)
                && final(buf)@ == old(buf)@,
            r matches Ok(n) ==> n <= max && final(buf)@.len() == old(buf)@.len() + n && final(buf)@.take(
                old(buf)@.len() as int,
            ) == old(buf)@,
            r matches Err(e) ==> e == Error::IoError(crate::error::IoError::InvalidData) && final(self).spec_finished(),
            r matches Ok(n) && n < max ==> final(self).spec_finished(),
            !old(self).spec_finished() && max > 0 ==> exists|ms: Seq<Ppmd7<RangeDecoder7a>>, last: Result<i32, IoError>|
                #[trigger] read_outcome(
                    old(self).model(),
                    ms,
                    last,
                    final(buf)@.subrange(old(buf)@.len() as int, final(buf)@.len() as int),
                    final(self).model(),
                    final(self).spec_finished(),
                    max as nat,
                    r,
                ),
    {
        if self.finished || max == 0 {
            return Ok(0);
        }
        let ghost start = buf@;
        let ghost mut ms: Seq<Ppmd7<RangeDecoder7a>> = seq![self.ppmd];
        let mut sym: i32 = 0;
        let mut decoded: usize = 0;
        while decoded < max
            invariant_except_break
                sym >= 0,
                ms.last() == self.ppmd,
            invariant
                decodes_bytes(ms, buf@.subrange(start.len() as int, buf@.len() as int)),
                ms[0] == old(self).ppmd,
                self.ppmd.wf(),
                self.ppmd.rc.wf(),
                self.ppmd.rc.reader.data() == old(self).ppmd.rc.reader.data(),
                self.ppmd.max_order == old(self).ppmd.max_order,
                self.ppmd.size == old(self).ppmd.size,
                !self.finished,
                decoded <= max,
                buf@.len() == start.len() + decoded,
                buf@.take(start.len() as int) == start,
                start == old(buf)@,
                -2 <= sym < 256,
                !old(self).finished && max > 0,
            ensures
                sym >= 0 ==> decoded == max && ms.last() == self.ppmd,
                sym < 0 ==> decode_step(ms.last(), self.ppmd, Ok::<i32, IoError>(sym)),
            decreases max - decoded,
        {
            let ghost before = self.ppmd;
            let dr = self.ppmd.decode_symbol();
            match dr {
                Ok(symbol) => sym = symbol,
                Err(_) => {
                    self.finished = true;
                    proof {
                        assert(buf@.subrange(start.len() as int, buf@.len() as int).len() == decoded);
                        assert(read_outcome(old(self).model(),
                            ms,
                            dr,
                            buf@.subrange(start.len() as int, buf@.len() as int),
                            self.model(),
                            self.spec_finished(),
                            max as nat,
                            Ok::<usize, Error>(decoded),
                        ));
                    }
                    return Ok(decoded);
                },
            }
            if sym < 0 {
                break;
            }
            let ghost syms0 = buf@.subrange(start.len() as int, buf@.len() as int);
            let ghost ms0 = ms;
            buf.push(sym as u8);
            proof {
                assert(buf@.take(start.len() as int) =~= start);
                ms = ms.push(self.ppmd);
                let syms1 = buf@.subrange(start.len() as int, buf@.len() as int);
                assert(syms1 =~= syms0.push(sym as u8));
                assert forall|i: int| 0 <= i < syms1.len() implies #[trigger] decode_step(
                    ms[i],
                    ms[i + 1],
                    Ok::<i32, IoError>(syms1[i] as i32),
                ) by {
                    if i < syms0.len() {
                        assert(ms[i] == ms0[i] && ms[i + 1] == ms0[i + 1] && syms1[i] == syms0[i]);
                    }
                }
            }
            decoded = decoded + 1;
        }
        let ghost syms = buf@.subrange(start.len() as int, buf@.len() as int);
        if sym >= 0 {
            proof {
                assert(read_outcome(old(self).model(), ms, Ok::<i32, IoError>(sym), syms, self.model(), self.spec_finished(), max as nat, Ok::<usize, Error>(decoded)));
            }
            return Ok(decoded);
        }
        self.finished = true;
        let code = self.ppmd.rc.code;
        if sym != SYM_END || code != 0 {
            proof {
                assert(read_outcome(old(self).model(),
                    ms,
                    Ok::<i32, IoError>(sym),
                    syms,
                    self.model(),
                    self.spec_finished(),
                    max as nat,
                    Err::<usize, Error>(Error::IoError(IoError::InvalidData)),
                ));
            }
            return Err(Error::IoError(IoError::InvalidData));
        }
        proof {
            assert(read_outcome(old(self).model(), ms, Ok::<i32, IoError>(sym), syms, self.model(), self.spec_finished(), max as nat, Ok::<usize, Error>(decoded)));
        }
        Ok(decoded)
    }

    /// Starts a new coded stream where the current one stopped, keeping the model: the
    /// next four bytes are the new start of the code.
    pub fn restart_range_coder(&mut self) -> (r: Result<(), Error>)
        requires
            old(self).wf(),
        ensures
            final(self).wf() || r is Err,
            final(self).model() == (Ppmd7 { rc: final(self).model().rc, ..old(self).model() }),
            final(self).spec_finished() == old(self).spec_finished(),
            ({
                let d = old(self).reader().data();
                let p = old(self).reader().pos() as int;
                let n = d.len() - p;
                &&& n < 4 ==> r == Err::<(), Error>(Error::IoError(crate::error::IoError::UnexpectedEof))
                &&& n >= 4 && be32(d, p) == 0xFFFF_FFFF ==> r == Err::<(), Error>(Error::RangeDecoderInitialization)
                &&& n >= 4 && be32(d, p) != 0xFFFF_FFFF ==> {
                    &&& r == Ok::<(), Error>(())
                    &&& final(self).spec_code() == be32(d, p)
                    &&& final(self).spec_range() == 0xFFFF_FFFF
                    &&& final(self).spec_low() == 0
                    &&& final(self).reader().data() == d
                    &&& final(self).reader().pos() == p + 4
                }
            }),
    {
        let mut reader = ByteReader::new(Vec::new());
        core::mem::swap(&mut reader, &mut self.ppmd.rc.reader);
        let ghost saved = reader;
        match RangeDecoder7a::new(reader) {
            Ok(rc) => {
                self.ppmd.rc = rc;
                Ok(())
            },
            Err(e) => Err(e),
        }
    }
}

} // verus!

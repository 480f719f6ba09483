//! The front end of the PPMd7a encoder: parameter checks, the model and the carryless
//! range encoder over the coded stream.

use vstd::prelude::*;

use crate::byte_io::ByteWriter;
use crate::decoder_7a::ppmd7_params_valid;
use crate::error::Error;
use crate::ppmd7::coder::encode_step;
use crate::ppmd7::model::Ppmd7;
use crate::range_coding::RangeEncoder7a;
use crate::{PPMD7_MAX_MEM_SIZE, PPMD7_MAX_ORDER, PPMD7_MIN_MEM_SIZE, PPMD7_MIN_ORDER};

verus! {

/// An encoder that compresses data with PPMd7 (PPMdH) and the carryless range coder
/// (PPMd7a).
pub struct Ppmd7aEncoder {
    ppmd: Ppmd7<RangeEncoder7a>,
}

/// `ms` are the models along the encoding of the bytes `data` from `ms[0]`, one
/// encoding step per byte.
pub open spec fn encodes_bytes(ms: Seq<Ppmd7<RangeEncoder7a>>, data: Seq<u8>) -> bool {
    &&& ms.len() == data.len() + 1
    &&& forall|i: int| 0 <= i < data.len() ==> #[trigger] encode_step(ms[i], ms[i + 1], data[i] as i32)
}

/// Encoding `data` from the model `m0` went through the models `ms` and ended in
/// `m_end`.
pub open spec fn write_outcome(
    m0: Ppmd7<RangeEncoder7a>,
    ms: Seq<Ppmd7<RangeEncoder7a>>,
    data: Seq<u8>,
    m_end: Ppmd7<RangeEncoder7a>,
) -> bool {
    &&& encodes_bytes(ms, data)
    &&& ms[0] == m0
    &&& ms.last() == m_end
}

/// The stream `w` that finishing the model `m0` gives: the end marker is encoded where
/// `end_marker` is set, leading to the model `m`, and the range encoder's last four
/// bytes follow.
pub open spec fn finish_outcome(m0: Ppmd7<RangeEncoder7a>, m: Ppmd7<RangeEncoder7a>, end_marker: bool, w: ByteWriter) -> bool {
    &&& end_marker ==> encode_step(m0, m, -1i32)
    &&& !end_marker ==> m == m0
    &&& w.data() == m.rc.writer.data() + seq![
        (m.rc.low >> 24) as u8,
        (m.rc.low >> 16) as u8,
        (m.rc.low >> 8) as u8,
        m.rc.low as u8,
    ]
}

impl Ppmd7aEncoder {
    /// The model order the encoder was made with.
    pub closed spec fn spec_order(&self) -> u32 {
        self.ppmd.max_order
    }

    /// The model memory size the encoder was made with.
    pub closed spec fn spec_mem_size(&self) -> u32 {
        self.ppmd.size
    }

    /// The stream the encoder writes.
    pub closed spec fn writer(&self) -> ByteWriter {
        self.ppmd.rc.writer
    }

    /// The model the encoder encodes with.
    pub closed spec fn model(&self) -> Ppmd7<RangeEncoder7a> {
        self.ppmd
    }

    /// The model is consistent.
    pub closed spec fn wf(&self) -> bool {
        self.ppmd.wf()
    }

    /// Creates an encoder that writes after the bytes `writer` holds. `order` must lie
    /// between `PPMD7_MIN_ORDER` and `PPMD7_MAX_ORDER`, `mem_size` between
    /// `PPMD7_MIN_MEM_SIZE` and `PPMD7_MAX_MEM_SIZE`.
    pub fn new(writer: ByteWriter, order: u32, mem_size: u32) -> (r: Result<Ppmd7aEncoder, Error>)
        ensures
            !ppmd7_params_valid(order, mem_size) ==> r == Err::<Ppmd7aEncoder, Error>(Error::InvalidParameter),
            ppmd7_params_valid(order, mem_size) ==> (r matches Ok(e) && {
                &&& e.wf()
                &&& e.spec_order() == order
                &&& e.spec_mem_size() == mem_size
                &&& e.writer() == writer
                &&& e.model().started()
                &&& e.model().rc.range == 0xFFFF_FFFF
                &&& e.model().rc.low == 0
            }),
    {
        if !(PPMD7_MIN_ORDER <= order && order <= PPMD7_MAX_ORDER)
            || !(PPMD7_MIN_MEM_SIZE <= mem_size && mem_size <= PPMD7_MAX_MEM_SIZE) {
            return Err(Error::InvalidParameter);
        }
        let rc = RangeEncoder7a::new(writer);
        Ok(Ppmd7aEncoder { ppmd: Ppmd7::construct(rc, order, mem_size) })
    }

    /// Encodes the bytes of `data` in turn.
    pub fn write(&mut self, data: &[u8])
        requires
            old(self).wf(),
        ensures
            final(self).wf(),
            final(self).spec_order() == old(self).spec_order(),
            final(self).spec_mem_size() == old(self).spec_mem_size(),
            data@.len() == 0 ==> *final(self) == *old(self),
            exists|ms: Seq<Ppmd7<RangeEncoder7a>>| #[trigger] write_outcome(old(self).model(), ms, data@, final(self).model()),
            old(self).writer().data().is_prefix_of(final(self).writer().data()),
    {
        let ghost mut ms: Seq<Ppmd7<RangeEncoder7a>> = seq![self.ppmd];
        let ghost w0 = self.ppmd.rc.writer.data();
        proof {
            assert(w0 =~= w0.subrange(0, w0.len() as int));
        }
        let mut i: usize = 0;
        while i < data.len()
            invariant
                self.ppmd.wf(),
                self.ppmd.max_order == old(self).ppmd.max_order,
                self.ppmd.size == old(self).ppmd.size,
                i <= data.len(),
                i == 0 ==> *self == *old(self),
                encodes_bytes(ms, data@.take(i as int)),
                ms[0] == old(self).ppmd,
                ms.last() == self.ppmd,
                w0 == old(self).ppmd.rc.writer.data(),
                w0.is_prefix_of(self.ppmd.rc.writer.data()),
            decreases data.len() - i,
        {
            let ghost ms0 = ms;
            let ghost wb = self.ppmd.rc.writer.data();
            self.ppmd.encode_symbol(data[i] as i32);
            proof {
                crate::range_coding::lemma_prefix_trans(w0, wb, self.ppmd.rc.writer.data());
            }
            proof {
                ms = ms.push(self.ppmd);
                let d1 = data@.take(i + 1);
                let d0 = data@.take(i as int);
                assert forall|j: int| 0 <= j < d1.len() implies #[trigger] encode_step(ms[j], ms[j + 1], d1[j] as i32) by {
                    if j < d0.len() {
                        assert(ms[j] == ms0[j] && ms[j + 1] == ms0[j + 1] && d1[j] == d0[j]);
                    }
                }
            }
            i = i + 1;
        }
        proof {
            assert(data@.take(data@.len() as int) =~= data@);
            assert(write_outcome(old(self).model(), ms, data@, self.model()));
        }
    }

    /// Encodes the end marker where `end_marker` is set, writes out the last bytes of
    /// the range encoder and gives back the stream.
    pub fn finish(self, end_marker: bool) -> (w: ByteWriter)
        requires
            self.wf(),
        ensures
            !end_marker ==> w.data() == self.writer().data() + seq![
                (self.model().rc.low >> 24) as u8,
                (self.model().rc.low >> 16) as u8,
                (self.model().rc.low >> 8) as u8,
                self.model().rc.low as u8,
            ],
            exists|m: Ppmd7<RangeEncoder7a>| #[trigger] finish_outcome(self.model(), m, end_marker, w),
            self.writer().data().is_prefix_of(w.data()),
    {
        let mut ppmd = self.ppmd;
        let ghost w0 = ppmd.rc.writer.data();
        proof {
            assert(w0 =~= w0.subrange(0, w0.len() as int));
        }
        if end_marker {
            ppmd.encode_symbol(-1);
        }
        let ghost m = ppmd;
        ppmd.rc.flush();
        proof {
            assert(finish_outcome(self.model(), m, end_marker, ppmd.rc.writer));
            crate::range_coding::lemma_prefix_append(m.rc.writer.data(), seq![
                (m.rc.low >> 24) as u8,
                (m.rc.low >> 16) as u8,
                (m.rc.low >> 8) as u8,
                m.rc.low as u8,
            ]);
            crate::range_coding::lemma_prefix_trans(w0, m.rc.writer.data(), ppmd.rc.writer.data());
        }
        ppmd.rc.writer
    }

    /// Ends the current coded stream, writing out the last bytes of the range encoder,
    /// and starts a new one after it, keeping the model.
    pub fn restart_range_coder(&mut self)
        requires
            old(self).wf(),
        ensures
            final(self).wf(),
            final(self).model() == (Ppmd7 { rc: final(self).model().rc, ..old(self).model() }),
            final(self).model().rc.range == 0xFFFF_FFFF,
            final(self).model().rc.low == 0,
            final(self).writer().data() == old(self).writer().data() + seq![
                (old(self).model().rc.low >> 24) as u8,
                (old(self).model().rc.low >> 16) as u8,
                (old(self).model().rc.low >> 8) as u8,
                old(self).model().rc.low as u8,
            ],
    {
        self.ppmd.rc.flush();
        self.ppmd.rc.range = 0xFFFF_FFFF;
        self.ppmd.rc.low = 0;
    }

    /// The underlying stream.
    pub fn get_ref(&self) -> (w: &ByteWriter)
        ensures
            *w == self.writer(),
    {
        &self.ppmd.rc.writer
    }

    /// The underlying stream, for changes. Changing it may break the stream that
    /// follows.
    pub fn get_mut(&mut self) -> (w: &mut ByteWriter)
        ensures
            *w == old(self).writer(),
            final(self).writer() == *final(w),
            final(self).model() == (Ppmd7 {
                rc: RangeEncoder7a { writer: final(self).writer(), ..old(self).model().rc },
                ..old(self).model()
            }),
    {
        &mut self.ppmd.rc.writer
    }

    /// The underlying stream, giving up the encoder without flushing it.
    pub fn into_inner(self) -> (w: ByteWriter)
        ensures
            w == self.writer(),
    {
        self.ppmd.rc.writer
    }
}

} // verus!

//! The PPMd8 model state, its construction and start state, and the model with its
//! range decoder or encoder.

use vstd::prelude::*;

use super::arena::{le16, le32, Arena};
use super::{
    build_bin_summ, build_ns2bs_index, build_ns2index, build_see, build_unit_tables, index2units_wf,
    init_bin_summ, init_see_summ, ns2bs_index_wf, ns2index_wf, units2index_wf, RestoreMethod, See,
    PPMD_NUM_INDEXES, PPMD_PERIOD_BITS, UNIT_SIZE,
};
use crate::byte_io::{ByteReader, ByteWriter};
use crate::error::{Error, IoError};
use crate::range_coding::{be32, RangeDecoder7a, RangeEncoder7a};
use crate::{PPMD8_MAX_MEM_SIZE, PPMD8_MAX_ORDER, PPMD8_MIN_MEM_SIZE, PPMD8_MIN_ORDER};

verus! {

broadcast use crate::byte_io::ByteReader::lemma_pos_bound;

/// The PPMd8 model with its range coder `RC`. Contexts, states and free blocks live
/// in `mem` at 32-bit offsets; offset zero stands for no context.
pub struct Ppmd8<RC> {
    pub min_context: u32,
    pub max_context: u32,
    pub found_state: u32,
    pub order_fall: u32,
    pub init_esc: u32,
    pub prev_success: u32,
    pub max_order: u32,
    pub restore_method: RestoreMethod,
    pub run_length: i32,
    pub init_rl: i32,
    pub size: u32,
    pub glue_count: u32,
    pub align_offset: u32,
    pub lo_unit: u32,
    pub hi_unit: u32,
    pub text: u32,
    pub units_start: u32,
    pub index2units: Vec<u8>,
    pub units2index: Vec<u8>,
    pub free_list: Vec<u32>,
    pub stamps: Vec<u32>,
    pub ns2bs_index: Vec<u8>,
    pub ns2index: Vec<u8>,
    pub dummy_see: See,
    pub see: Vec<See>,
    pub bin_summ: Vec<u16>,
    pub mem: Arena,
    pub rc: RC,
}

/// Whether `max_order` and `mem_size` are within the ranges that PPMd8 accepts.
pub open spec fn ppmd8_params_valid(max_order: u32, mem_size: u32) -> bool {
    &&& PPMD8_MIN_ORDER <= max_order <= PPMD8_MAX_ORDER
    &&& PPMD8_MIN_MEM_SIZE <= mem_size <= PPMD8_MAX_MEM_SIZE
}

/// How many bytes of the model memory the units area takes at a restart.
pub open spec fn units_area(size: u32) -> int {
    (size as int / 8 / 12) * 7 * 12
}

/// The escape estimates a binary context leaves for its successor context, by the top
/// bits of its probability.
pub open spec fn exp_escape(i: int) -> u8 {
    if i == 0 {
        25
    } else if i == 1 {
        14
    } else if i == 2 {
        9
    } else if i == 3 {
        7
    } else if i == 4 || i == 5 {
        5
    } else if 6 <= i <= 8 {
        4
    } else if 9 <= i <= 11 {
        3
    } else {
        2
    }
}

pub fn exp_escape_exec(i: u32) -> (v: u8)
    requires
        i < 16,
    ensures
        v == exp_escape(i as int),
{
    if i == 0 {
        25
    } else if i == 1 {
        14
    } else if i == 2 {
        9
    } else if i == 3 {
        7
    } else if i <= 5 {
        5
    } else if i <= 8 {
        4
    } else if i <= 11 {
        3
    } else {
        2
    }
}

/// Adds `0xC0` to a symbol: the high bit of the result tells whether the symbol is
/// 0x40 or above.
pub fn hi_bits_prepare(flag: u32) -> (r: u32)
    requires
        flag <= u32::MAX - 0xC0,
    ensures
        r == flag + 0xC0,
{
    flag + 0xC0
}

/// Bit 8 of `flag`, moved to bit 3.
pub fn hi_bits_convert_3(flag: u32) -> (r: u32)
    ensures
        r == (if (flag as int / 0x100) % 2 == 1 { 8u32 } else { 0u32 }),
{
    proof {
        assert((flag >> (8u32 - 3u32)) & (1u32 << 3u32) == (if (flag as int / 0x100) % 2 == 1 { 8u32 } else { 0u32 }))
            by (bit_vector);
    }
    (flag >> (8 - 3)) & (1 << 3)
}

/// Bit 8 of `flag`, moved to bit 4.
pub fn hi_bits_convert_4(flag: u32) -> (r: u32)
    ensures
        r == (if (flag as int / 0x100) % 2 == 1 { 16u32 } else { 0u32 }),
{
    proof {
        assert((flag >> (8u32 - 4u32)) & (1u32 << 4u32) == (if (flag as int / 0x100) % 2 == 1 { 16u32 } else { 0u32 }))
            by (bit_vector);
    }
    (flag >> (8 - 4)) & (1 << 4)
}

/// The context flag for a symbol of 0x40 or above: 8.
pub fn hi_bits_flag3(symbol: u32) -> (r: u32)
    requires
        symbol < 256,
    ensures
        r == (if symbol >= 0x40 { 8u32 } else { 0u32 }),
{
    hi_bits_convert_3(hi_bits_prepare(symbol))
}

/// The context flag for a previous symbol of 0x40 or above: 16.
pub fn hi_bits_flag4(symbol: u32) -> (r: u32)
    requires
        symbol < 256,
    ensures
        r == (if symbol >= 0x40 { 16u32 } else { 0u32 }),
{
    hi_bits_convert_4(hi_bits_prepare(symbol))
}

impl<RC> Ppmd8<RC> {
    /// The tables are built, and the memory has the size the model was made with.
    pub open spec fn wf(&self) -> bool {
        &&& index2units_wf(self.index2units@)
        &&& units2index_wf(self.units2index@)
        &&& ns2bs_index_wf(self.ns2bs_index@)
        &&& ns2index_wf(self.ns2index@)
        &&& self.free_list.len() == PPMD_NUM_INDEXES
        &&& self.stamps.len() == PPMD_NUM_INDEXES
        &&& self.see.len() == 24 * 32
        &&& self.bin_summ.len() == 25 * 64
        &&& self.align_offset < 4
        &&& self.mem.bytes().len() == self.align_offset + self.size
        &&& ppmd8_params_valid(self.max_order, self.size)
    }

    /// Builds the model around `rc`, with its tables, its memory and its start state.
    pub fn construct(rc: RC, max_order: u32, mem_size: u32, restore_method: RestoreMethod) -> (p: Self)
        requires
            ppmd8_params_valid(max_order, mem_size),
        ensures
            p.wf(),
            p.started(),
            p.rc == rc,
            p.max_order == max_order,
            p.size == mem_size,
            p.restore_method == restore_method,
            p.align_offset == (4 - mem_size as int % 4) % 4,
    {
        let (index2units, units2index) = build_unit_tables();
        let ns2bs_index = build_ns2bs_index();
        let ns2index = build_ns2index();
        let align_offset = (4u32.wrapping_sub(mem_size)) & 3;
        proof {
            assert(align_offset as int == (4 - mem_size as int % 4) % 4) by (bit_vector)
                requires align_offset == (4u32.wrapping_sub(mem_size)) & 3;
        }
        let total_size = (align_offset + mem_size) as usize;
        let mem = Arena::new(total_size);
        let mut free_list: Vec<u32> = Vec::new();
        let mut stamps: Vec<u32> = Vec::new();
        let mut i: u32 = 0;
        while i < PPMD_NUM_INDEXES
            invariant
                i <= PPMD_NUM_INDEXES,
                free_list.len() == i,
                stamps.len() == i,
            decreases PPMD_NUM_INDEXES - i,
        {
            free_list.push(0);
            stamps.push(0);
            i = i + 1;
        }
        let see = build_see(&ns2index);
        let bin_summ = build_bin_summ(&ns2index);
        let mut ppmd = Ppmd8 {
            min_context: 0,
            max_context: 0,
            found_state: 0,
            order_fall: 0,
            init_esc: 0,
            prev_success: 0,
            max_order,
            restore_method,
            run_length: 0,
            init_rl: 0,
            size: mem_size,
            glue_count: 0,
            align_offset,
            lo_unit: 0,
            hi_unit: 0,
            text: 0,
            units_start: 0,
            index2units,
            units2index,
            free_list,
            stamps,
            ns2bs_index,
            ns2index,
            dummy_see: See { summ: 0, shift: 0, count: 0 },
            see,
            bin_summ,
            mem,
            rc,
        };
        ppmd.restart_model();
        ppmd
    }

    /// The model is in its start state: the order-0 context at the top of the memory
    /// holds all 256 symbols with frequency 1, and the escape estimators and binary
    /// context probabilities have their start values.
    pub open spec fn started(&self) -> bool {
        let m = self.mem.bytes();
        let c = self.hi_unit as int;
        let s = self.found_state as int;
        &&& self.text == self.align_offset
        &&& self.hi_unit == self.align_offset + self.size - UNIT_SIZE
        &&& self.units_start == self.align_offset + self.size - units_area(self.size)
        &&& self.lo_unit == self.units_start + 128 * UNIT_SIZE
        &&& self.found_state == self.units_start
        &&& self.min_context == self.hi_unit
        &&& self.max_context == self.hi_unit
        &&& self.order_fall == self.max_order
        &&& self.init_rl == -(if self.max_order < 12 { self.max_order as int } else { 12 }) - 1
        &&& self.run_length == self.init_rl
        &&& self.prev_success == 0
        &&& self.glue_count == 0
        &&& forall|i: int| 0 <= i < PPMD_NUM_INDEXES ==> #[trigger] self.free_list@[i] == 0
        &&& forall|i: int| 0 <= i < PPMD_NUM_INDEXES ==> #[trigger] self.stamps@[i] == 0
        &&& forall|mm: int, cc: int| 0 <= mm < 25 && 0 <= cc < 64 ==> #[trigger] self.bin_summ@[mm * 64 + cc] as int == init_bin_summ(mm, cc)
        &&& forall|mm: int, cc: int|
            0 <= mm < 24 && 0 <= cc < 32 ==> #[trigger] self.see@[mm * 32 + cc] == (See {
                summ: init_see_summ(mm) as u16,
                shift: (PPMD_PERIOD_BITS - 4) as u8,
                count: 7,
            })
        &&& self.dummy_see == (See { summ: 0, shift: PPMD_PERIOD_BITS as u8, count: 64 })
        &&& m[c] == 255
        &&& m[c + 1] == 0
        &&& le16(m, c + 2) == 257
        &&& le32(m, c + 4) == s
        &&& le32(m, c + 8) == 0
        &&& forall|i: int|
            0 <= i < 256 ==> {
                &&& #[trigger] m[s + 6 * i] == i
                &&& m[s + 6 * i + 1] == 1
                &&& le32(m, s + 6 * i + 2) == 0
            }
    }

    /// Starts the model afresh: empties the free lists, lays out the text and units
    /// areas, builds the order-0 context with all 256 symbols, and resets the escape
    /// estimators and binary context probabilities.
    pub fn restart_model(&mut self)
        requires
            index2units_wf(old(self).index2units@),
            units2index_wf(old(self).units2index@),
            ns2bs_index_wf(old(self).ns2bs_index@),
            ns2index_wf(old(self).ns2index@),
            old(self).free_list.len() == PPMD_NUM_INDEXES,
            old(self).stamps.len() == PPMD_NUM_INDEXES,
            old(self).align_offset < 4,
            old(self).mem.bytes().len() == old(self).align_offset + old(self).size,
            ppmd8_params_valid(old(self).max_order, old(self).size),
        ensures
            restarted(*old(self), *final(self)),
    {
        let ghost m_in = self.mem.bytes();
        self.free_list = zeros_u32(PPMD_NUM_INDEXES as usize);
        self.stamps = zeros_u32(PPMD_NUM_INDEXES as usize);
        let size = self.size;
        self.text = self.align_offset;
        self.hi_unit = self.text + size;
        let area = size / 8 / UNIT_SIZE * 7 * UNIT_SIZE;
        proof {
            assert(area as int == units_area(size));
            assert(area <= size) by (nonlinear_arith)
                requires area as int == (size as int / 8 / 12) * 7 * 12;
            assert(area >= 1764) by (nonlinear_arith)
                requires area as int == (size as int / 8 / 12) * 7 * 12, size >= 2048;
        }
        self.units_start = self.hi_unit - area;
        self.lo_unit = self.units_start;
        self.glue_count = 0;

        self.order_fall = self.max_order;
        self.init_rl = -(if self.max_order < 12 {
            self.max_order as i32
        } else {
            12
        }) - 1;
        self.run_length = self.init_rl;
        self.prev_success = 0;

        self.hi_unit = self.hi_unit - UNIT_SIZE;
        let mc = self.hi_unit;
        let s = self.lo_unit;
        self.lo_unit = self.lo_unit + (256 / 2) * UNIT_SIZE;
        self.min_context = mc;
        self.max_context = mc;
        self.found_state = s;

        write_root_context(&mut self.mem, mc, s);
        proof {
            assert forall|j: int| 0 <= j < mc && !(s <= j < s + 6 * 256) implies #[trigger] self.mem.bytes()[j] == m_in[j] by {
            }
        }
        self.bin_summ = build_bin_summ(&self.ns2index);
        self.see = build_see(&self.ns2index);
        self.dummy_see = See { summ: 0, shift: PPMD_PERIOD_BITS as u8, count: 64 };
    }
}


impl Ppmd8<RangeDecoder7a> {
    /// A PPMd8 model in its start state that decodes from `reader`. The order and
    /// memory size must lie in the ranges PPMd8 accepts; the stream must begin with
    /// four bytes of code that are not all ones.
    pub fn new_decoder(reader: ByteReader, max_order: u32, mem_size: u32, restore_method: RestoreMethod) -> (r: Result<Self, Error>)
        ensures
            !ppmd8_params_valid(max_order, mem_size) ==> r == Err::<Self, Error>(Error::InvalidParameter),
            ppmd8_params_valid(max_order, mem_size) ==> ({
                let d = reader.data();
                let p = reader.pos() as int;
                let n = d.len() - p;
                &&& n < 4 ==> r == Err::<Self, Error>(Error::IoError(IoError::UnexpectedEof))
                &&& n >= 4 && be32(d, p) == 0xFFFF_FFFF ==> r == Err::<Self, Error>(Error::RangeDecoderInitialization)
                &&& n >= 4 && be32(d, p) != 0xFFFF_FFFF ==> (r matches Ok(m) && {
                    &&& m.wf()
                    &&& m.started()
                    &&& m.max_order == max_order
                    &&& m.size == mem_size
                    &&& m.restore_method == restore_method
                    &&& m.rc.wf()
                    &&& m.rc.range == 0xFFFF_FFFF
                    &&& m.rc.low == 0
                    &&& m.rc.code == be32(d, p)
                    &&& m.rc.reader.data() == d
                    &&& m.rc.reader.pos() == p + 4
                })
            }),
    {
        if !(PPMD8_MIN_ORDER <= max_order && max_order <= PPMD8_MAX_ORDER)
            || !(PPMD8_MIN_MEM_SIZE <= mem_size && mem_size <= PPMD8_MAX_MEM_SIZE) {
            return Err(Error::InvalidParameter);
        }
        let rc = RangeDecoder7a::new(reader)?;
        Ok(Self::construct(rc, max_order, mem_size, restore_method))
    }

    /// The stream the model decodes from.
    pub fn get_ref(&self) -> (r: &ByteReader)
        ensures
            *r == self.rc.reader,
    {
        &self.rc.reader
    }

    /// The stream the model decodes from, for changes. Changing it may break the
    /// decoding that follows.
    pub fn get_mut(&mut self) -> (r: &mut ByteReader)
        ensures
            *r == old(self).rc.reader,
            final(self).rc.reader == *final(r),
            final(self).rc.code == old(self).rc.code,
            final(self).rc.range == old(self).rc.range,
            final(self).rc.low == old(self).rc.low,
            final(self).mem == old(self).mem,
            final(self).min_context == old(self).min_context,
            final(self).found_state == old(self).found_state,
    {
        &mut self.rc.reader
    }

    /// The stream the model decoded from, giving up the model.
    pub fn into_inner(self) -> (r: ByteReader)
        ensures
            r == self.rc.reader,
    {
        self.rc.reader
    }

    /// The code of the range decoder; zero after a complete stream with an end marker.
    pub fn range_decoder_code(&self) -> (c: u32)
        ensures
            c == self.rc.code,
    {
        self.rc.code
    }
}

impl Ppmd8<RangeEncoder7a> {
    /// A PPMd8 model in its start state that encodes to `writer`. The order and
    /// memory size must lie in the ranges PPMd8 accepts.
    pub fn new_encoder(writer: ByteWriter, max_order: u32, mem_size: u32, restore_method: RestoreMethod) -> (r: Result<Self, Error>)
        ensures
            !ppmd8_params_valid(max_order, mem_size) ==> r == Err::<Self, Error>(Error::InvalidParameter),
            ppmd8_params_valid(max_order, mem_size) ==> (r matches Ok(m) && {
                &&& m.wf()
                &&& m.started()
                &&& m.max_order == max_order
                &&& m.size == mem_size
                &&& m.restore_method == restore_method
                &&& m.rc.range == 0xFFFF_FFFF
                &&& m.rc.low == 0
                &&& m.rc.writer == writer
            }),
    {
        if !(PPMD8_MIN_ORDER <= max_order && max_order <= PPMD8_MAX_ORDER)
            || !(PPMD8_MIN_MEM_SIZE <= mem_size && mem_size <= PPMD8_MAX_MEM_SIZE) {
            return Err(Error::InvalidParameter);
        }
        let rc = RangeEncoder7a::new(writer);
        Ok(Self::construct(rc, max_order, mem_size, restore_method))
    }

    /// The output the model encodes to.
    pub fn get_ref(&self) -> (r: &ByteWriter)
        ensures
            *r == self.rc.writer,
    {
        &self.rc.writer
    }

    /// The output the model encodes to, for changes. Changing it may corrupt the
    /// encoded stream.
    pub fn get_mut(&mut self) -> (r: &mut ByteWriter)
        ensures
            *r == old(self).rc.writer,
            final(self).rc.writer == *final(r),
            final(self).rc.range == old(self).rc.range,
            final(self).rc.low == old(self).rc.low,
            final(self).mem == old(self).mem,
            final(self).min_context == old(self).min_context,
            final(self).found_state == old(self).found_state,
    {
        &mut self.rc.writer
    }

    /// The output the model encoded to, giving up the model.
    pub fn into_inner(self) -> (r: ByteWriter)
        ensures
            r == self.rc.writer,
    {
        self.rc.writer
    }

    /// Writes the last four bytes of the range encoder.
    pub fn flush_range_encoder(&mut self)
        ensures
            final(self).rc.range == old(self).rc.range,
            final(self).rc.low == 0,
            final(self).rc.writer.data() == old(self).rc.writer.data() + seq![
                (old(self).rc.low >> 24) as u8,
                (old(self).rc.low >> 16) as u8,
                (old(self).rc.low >> 8) as u8,
                old(self).rc.low as u8,
            ],
            final(self).mem == old(self).mem,
            final(self).min_context == old(self).min_context,
    {
        self.rc.flush()
    }
}

/// `n` zeros.
pub fn zeros_u32(n: usize) -> (v: Vec<u32>)
    ensures
        v.len() == n,
        forall|i: int| 0 <= i < n ==> #[trigger] v@[i] == 0,
{
    let mut v: Vec<u32> = Vec::new();
    let mut i: usize = 0;
    while i < n
        invariant
            i <= n,
            v.len() == i,
            forall|j: int| 0 <= j < i ==> #[trigger] v@[j] == 0,
        decreases n - i,
    {
        v.push(0);
        i = i + 1;
    }
    v
}

/// `b` is `a` started afresh by `restart_model`: in its start state, with the same
/// coder, parameters, index tables and initial escape, and with its memory changed
/// only in the root context and its 256 states.
pub open spec fn restarted<RC>(a: Ppmd8<RC>, b: Ppmd8<RC>) -> bool {
    let m0 = a.mem.bytes();
    let m = b.mem.bytes();
    &&& b.wf()
    &&& b.started()
    &&& b.rc == a.rc
    &&& b.max_order == a.max_order
    &&& b.size == a.size
    &&& b.align_offset == a.align_offset
    &&& b.restore_method == a.restore_method
    &&& b.init_esc == a.init_esc
    &&& b.index2units == a.index2units
    &&& b.units2index == a.units2index
    &&& b.ns2index == a.ns2index
    &&& b.ns2bs_index == a.ns2bs_index
    &&& m.len() == m0.len()
    &&& forall|j: int| 0 <= j < b.hi_unit && !(b.units_start <= j < b.units_start + 6 * 256) ==> #[trigger] m[j] == m0[j]
}

/// Two little-endian 32-bit values that are equal have equal bytes.
pub proof fn lemma_le32_bytes(m1: Seq<u8>, m2: Seq<u8>, i: int)
    requires
        0 <= i,
        i + 4 <= m1.len(),
        i + 4 <= m2.len(),
        le32(m1, i) == le32(m2, i),
    ensures
        m1[i] == m2[i],
        m1[i + 1] == m2[i + 1],
        m1[i + 2] == m2[i + 2],
        m1[i + 3] == m2[i + 3],
{
    let (a0, a1, a2, a3) = (m1[i] as int, m1[i + 1] as int, m1[i + 2] as int, m1[i + 3] as int);
    let (b0, b1, b2, b3) = (m2[i] as int, m2[i + 1] as int, m2[i + 2] as int, m2[i + 3] as int);
    assert(a3 == b3);
    assert(a2 == b2);
    assert(a1 == b1);
}

/// Restarting a model that has just been restarted changes nothing: every field,
/// every table and every byte of the memory come out as they were.
pub proof fn law_restart_twice_is_once<RC>(a: Ppmd8<RC>, b: Ppmd8<RC>, c: Ppmd8<RC>)
    requires
        restarted(a, b),
        restarted(b, c),
    ensures
        c.mem.bytes() == b.mem.bytes(),
        c.free_list@ == b.free_list@,
        c.stamps@ == b.stamps@,
        c.see@ == b.see@,
        c.bin_summ@ == b.bin_summ@,
        c == (Ppmd8 { mem: c.mem, free_list: c.free_list, stamps: c.stamps, see: c.see, bin_summ: c.bin_summ, ..b }),
{
    let mb = b.mem.bytes();
    let mc = c.mem.bytes();
    let h = b.hi_unit as int;
    let u = b.units_start as int;
    assert forall|j: int| 0 <= j < mb.len() implies #[trigger] mc[j] == mb[j] by {
        if h <= j {
            if j >= h + 4 && j < h + 8 {
                lemma_le32_bytes(mc, mb, h + 4);
            } else if j >= h + 8 {
                lemma_le32_bytes(mc, mb, h + 8);
            }
        } else if u <= j < u + 6 * 256 {
            let k = (j - u) / 6;
            let r = (j - u) % 6;
            assert(j == u + 6 * k + r);
            assert(0 <= k < 256);
            assert(mb[u + 6 * k] == k && mc[u + 6 * k] == k);
            if r >= 2 {
                lemma_le32_bytes(mc, mb, u + 6 * k + 2);
            }
        }
    }
    assert(mc =~= mb);
    assert forall|i: int| 0 <= i < PPMD_NUM_INDEXES implies #[trigger] c.free_list@[i] == b.free_list@[i] by {}
    assert(c.free_list@ =~= b.free_list@);
    assert forall|i: int| 0 <= i < PPMD_NUM_INDEXES implies #[trigger] c.stamps@[i] == b.stamps@[i] by {}
    assert(c.stamps@ =~= b.stamps@);
    assert forall|i: int| 0 <= i < 24 * 32 implies #[trigger] c.see@[i] == b.see@[i] by {
        let mm = i / 32;
        let cc = i % 32;
        assert(i == mm * 32 + cc);
        assert(c.see@[mm * 32 + cc] == b.see@[mm * 32 + cc]);
    }
    assert(c.see@ =~= b.see@);
    assert forall|i: int| 0 <= i < 25 * 64 implies #[trigger] c.bin_summ@[i] == b.bin_summ@[i] by {
        let mm = i / 64;
        let cc = i % 64;
        assert(i == mm * 64 + cc);
        assert(c.bin_summ@[mm * 64 + cc] as int == init_bin_summ(mm, cc));
        assert(b.bin_summ@[mm * 64 + cc] as int == init_bin_summ(mm, cc));
    }
    assert(c.bin_summ@ =~= b.bin_summ@);
}

/// Writes the order-0 context at `mc`, whose states, all 256 symbols with frequency 1
/// and no successor, follow one another from `s` on.
pub fn write_root_context(mem: &mut Arena, mc: u32, s: u32)
    requires
        mc as int + 12 == old(mem).bytes().len(),
        mc as int + 12 <= u32::MAX,
        s as int + 6 * 256 + 12 <= mc,
    ensures
        final(mem).bytes().len() == old(mem).bytes().len(),
        ({
            let m = final(mem).bytes();
            let c = mc as int;
            &&& m[c] == 255
            &&& m[c + 1] == 0
            &&& le16(m, c + 2) == 257
            &&& le32(m, c + 4) == s
            &&& le32(m, c + 8) == 0
            &&& forall|i: int|
                0 <= i < 256 ==> {
                    &&& #[trigger] m[s + 6 * i] == i
                    &&& m[s + 6 * i + 1] == 1
                    &&& le32(m, s + 6 * i + 2) == 0
                }
        }),
        forall|j: int| 0 <= j < mc && !(s <= j < s + 6 * 256) ==> #[trigger] final(mem).bytes()[j] == old(mem).bytes()[j],
{
    let ghost len = mem.bytes().len();
    let ghost m_in = mem.bytes();
    mem.wr8(mc + 1, 0);
    mem.wr8(mc, 255);
    mem.wr16(mc + 2, 257);
    mem.wr32(mc + 4, s);
    mem.wr32(mc + 8, 0);
    let ghost after_ctx = mem.bytes();
    proof {
        let m = after_ctx;
        let c = mc as int;
        assert(m[c] == 255);
        assert(m[c + 1] == 0);
        assert forall|j: int| 0 <= j < mc implies #[trigger] m[j] == m_in[j] by {
        }
    }
    let mut k: u32 = 0;
    while k < 256
        invariant
            k <= 256,
            mem.bytes().len() == len,
            mc as int + 12 == len,
            mc as int + 12 <= u32::MAX,
            s as int + 6 * 256 + 12 <= mc,
            after_ctx.len() == len,
            after_ctx[mc as int] == 255,
            after_ctx[mc + 1] == 0,
            le16(after_ctx, mc + 2) == 257,
            le32(after_ctx, mc + 4) == s,
            le32(after_ctx, mc + 8) == 0,
            forall|j: int| mc <= j < len ==> #[trigger] mem.bytes()[j] == after_ctx[j],
            forall|j: int| 0 <= j < mc ==> #[trigger] after_ctx[j] == m_in[j],
            forall|j: int| 0 <= j < mc && !(s <= j < s + 6 * k) ==> #[trigger] mem.bytes()[j] == m_in[j],
            forall|i: int|
                0 <= i < k ==> {
                    &&& #[trigger] mem.bytes()[s + 6 * i] == i
                    &&& mem.bytes()[s + 6 * i + 1] == 1
                    &&& le32(mem.bytes(), s + 6 * i + 2) == 0
                },
        decreases 256 - k,
    {
        let st = s + 6 * k;
        let ghost before = mem.bytes();
        mem.wr8(st, k as u8);
        mem.wr8(st + 1, 1);
        mem.wr32(st + 2, 0);
        proof {
            let m = mem.bytes();
            assert forall|i: int| 0 <= i < k implies {
                &&& #[trigger] m[s + 6 * i] == i
                &&& m[s + 6 * i + 1] == 1
                &&& le32(m, s + 6 * i + 2) == 0
            } by {
                assert(before[s + 6 * i] == i);
                assert(before[s + 6 * i + 1] == 1);
                assert(le32(before, s + 6 * i + 2) == 0);
                assert(m[s + 6 * i + 2] == before[s + 6 * i + 2]);
                assert(m[s + 6 * i + 3] == before[s + 6 * i + 3]);
                assert(m[s + 6 * i + 4] == before[s + 6 * i + 4]);
                assert(m[s + 6 * i + 5] == before[s + 6 * i + 5]);
            }
            assert(m[st as int] == k);
            assert(m[st + 1] == 1);
            let kk = k as int;
            assert(m[s + 6 * kk] == kk);
            assert(m[s + 6 * kk + 1] == 1);
            assert(le32(m, s + 6 * kk + 2) == 0);
            assert forall|j: int| mc <= j < len implies #[trigger] m[j] == after_ctx[j] by {
                assert(m[j] == before[j]);
            }
            assert forall|j: int| 0 <= j < mc && !(s <= j < s + 6 * (k + 1)) implies #[trigger] m[j] == m_in[j] by {
                assert(m[j] == before[j]);
            }
        }
        k = k + 1;
    }
    proof {
        let m = mem.bytes();
        let c = mc as int;
        assert(m[c] == after_ctx[c]);
        assert(m[c + 1] == after_ctx[c + 1]);
        assert(m[c + 2] == after_ctx[c + 2]);
        assert(m[c + 3] == after_ctx[c + 3]);
        assert(m[c + 4] == after_ctx[c + 4]);
        assert(m[c + 5] == after_ctx[c + 5]);
        assert(m[c + 6] == after_ctx[c + 6]);
        assert(m[c + 7] == after_ctx[c + 7]);
        assert(m[c + 8] == after_ctx[c + 8]);
        assert(m[c + 9] == after_ctx[c + 9]);
        assert(m[c + 10] == after_ctx[c + 10]);
        assert(m[c + 11] == after_ctx[c + 11]);
    }
}

} // verus!

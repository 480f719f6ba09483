//! Coding one symbol with the PPMd7 model over the carryless range coder: the
//! decoder finds the symbol whose part of the range holds the code, the encoder moves
//! the range to the part of the symbol, escaping to shorter contexts with the
//! symbols already seen masked out.

use vstd::prelude::*;

use super::model::{frame7, Ppmd7};
use super::grow::{binary_state_updated7, first_state_updated7};
use crate::error::IoError;
use crate::ppmd8::model::exp_escape_exec;
use crate::ppmd8::{See, PPMD_PERIOD_BITS};
use crate::range_coding::{carryless_decoder_normalized, carryless_interval, RangeDecoder7a, RangeEncoder7a};

verus! {

/// The symbol that the decoder returns at the end marker: an escape from the root.
pub const SYM_END: i32 = -1;

/// The symbol that the decoder returns where the code lies outside every part of the
/// range: the stream is not a valid one.
pub const SYM_ERROR: i32 = -2;

/// The model `b` is consistent and has the parameters of `a`; its coder may differ.
pub open spec fn coder_frame7<RC>(a: Ppmd7<RC>, b: Ppmd7<RC>) -> bool {
    &&& b.wf()
    &&& b.max_order == a.max_order
    &&& b.size == a.size
    &&& b.align_offset == a.align_offset
}

/// The entry of the binary context probabilities for the model `p`, whose current
/// context holds one state.
pub open spec fn bin_summ_entry<RC>(p: Ppmd7<RC>) -> int {
    let one = p.min_context.wrapping_add(2);
    let row = (p.mem.spec_rd8(one.wrapping_add(1)) as u32).wrapping_sub(1) % 128;
    let suffix_ns = p.mem.spec_rd16(p.mem.spec_rd32(p.min_context.wrapping_add(8))) as u32;
    let bs = p.ns2bs_index@[(suffix_ns.wrapping_sub(1) % 256) as int];
    row * 64 + (if p.prev_success != 0 { 1int } else { 0 }) + bs + (if p.mem.spec_rd8(p.found_state) >= 0x40 { 8int } else { 0 })
        + 2 * (if p.mem.spec_rd8(one) >= 0x40 { 8int } else { 0 }) + (if p.run_length < 0 { 0x20int } else { 0 })
}

/// The row and column of the escape estimator for the model `p` with `num_masked`
/// states of its current context masked, where that context does not hold all 256
/// symbols.
pub open spec fn see_entry<RC>(p: Ppmd7<RC>, num_masked: u32) -> int {
    let mc = p.min_context;
    let ns = p.mem.spec_rd16(mc) as u32;
    let non_masked = ns.wrapping_sub(num_masked);
    let row = p.ns2index@[(non_masked.wrapping_sub(1) % 256) as int];
    let suffix_ns = p.mem.spec_rd16(p.mem.spec_rd32(mc.wrapping_add(8))) as u32;
    row * 16 + (if non_masked < suffix_ns.wrapping_sub(ns) { 1int } else { 0 }) + (if (p.mem.spec_rd16(mc.wrapping_add(2))
        as u32) < 11 * ns { 2int } else { 0 }) + (if num_masked > non_masked { 4int } else { 0 }) + (if p.hi_bits_flag != 0 {
        8int
    } else {
        0
    })
}

/// The sum of the frequencies of the first `n` states from `stats` in `p`, at most
/// 256 of them, whose symbols `mask` does not mask.
pub open spec fn unmasked_sum_spec<RC>(p: Ppmd7<RC>, mask: Seq<u8>, stats: u32, n: int) -> int
    decreases n,
{
    if n <= 0 {
        0
    } else {
        let s = crate::ppmd8::grow::state_offset(stats, n - 1);
        unmasked_sum_spec(p, mask, stats, n - 1) + (if mask[p.mem.spec_rd8(s) as int] != 0 {
            p.mem.spec_rd8(s.wrapping_add(1)) as int
        } else {
            0
        })
    }
}

/// An escape estimator after one use: its count falls, and when it runs out the sum
/// doubles and the period widens, up to `PPMD_PERIOD_BITS`.
pub open spec fn see_updated(e: See) -> See {
    if e.shift >= PPMD_PERIOD_BITS {
        e
    } else if e.count != 1 {
        See { count: e.count.wrapping_sub(1), ..e }
    } else {
        See {
            summ: ((e.summ as int * 2) % 0x1_0000) as u16,
            count: (3 * crate::ppmd8::pow2_small(e.shift as nat)) as u8,
            shift: (e.shift + 1) as u8,
        }
    }
}

/// The flag of a symbol of 0x40 or above.
fn hb_flag(sym: u32) -> (r: u32)
    ensures
        r == (if sym >= 0x40 { 8u32 } else { 0u32 }),
{
    if sym >= 0x40 {
        8
    } else {
        0
    }
}

/// The probability less its mean, as after a binary context escaped.
pub fn prob_less_mean(pr: u32) -> (r: u32)
    requires
        pr < 0x1_0000,
    ensures
        r == pr - (pr + 32) / 128,
        r < 0x1_0000,
{
    pr - (pr + 32) / 128
}

/// The sum of the frequencies of the first `k` states of the block at `stats`.
pub open spec fn freq_prefix<RC>(p: Ppmd7<RC>, stats: u32, k: int) -> int
    decreases k,
{
    if k <= 0 {
        0
    } else {
        freq_prefix(p, stats, k - 1) + p.mem.spec_rd8(crate::ppmd8::grow::state_offset(stats, k - 1).wrapping_add(1))
    }
}

/// The decoder's first step picks the `k`-th state (`k` from one) of the current
/// context of more than one state: the count of the code lies between the sum of the
/// frequencies before that state and the sum up to it.
pub open spec fn decodes_later_state(p: Ppmd7<RangeDecoder7a>, k: int) -> bool {
    let mc = p.min_context;
    let stats = p.mem.spec_rd32(mc.wrapping_add(4));
    let summ = p.mem.spec_rd16(mc.wrapping_add(2));
    let rg = p.rc.range / (summ as u32);
    &&& p.mem.spec_rd16(mc) != 1
    &&& summ != 0
    &&& rg != 0
    &&& 1 <= k < p.mem.spec_rd16(mc)
    &&& k < 256
    &&& freq_prefix(p, stats, k) <= p.rc.code / rg < freq_prefix(p, stats, k + 1)
}

/// The frequency sums grow with the number of states summed.
pub proof fn lemma_freq_prefix_grows<RC>(p: Ppmd7<RC>, stats: u32, a: int, b: int)
    requires
        0 <= a <= b,
    ensures
        freq_prefix(p, stats, a) <= freq_prefix(p, stats, b),
    decreases b - a,
{
    if a < b {
        lemma_freq_prefix_grows(p, stats, a, b - 1);
    }
}

/// One step of the decoder's walk over the states for the count `hi` of the code:
/// with `count` the count less the sum before the `k`-th state, taking that state's
/// frequency off either leaves the count less the sum up to it (the code lies past
/// it) or goes negative (the code lies in it), and then the start of its part is the
/// sum before it.
pub proof fn lemma_later_step<RC>(p: Ppmd7<RC>, stats: u32, k: int, j: int, hi: u32, count: u32, f: u32)
    requires
        0 <= k <= j,
        freq_prefix(p, stats, k) <= hi,
        count == hi - freq_prefix(p, stats, k),
        f == p.mem.spec_rd8(crate::ppmd8::grow::state_offset(stats, k).wrapping_add(1)),
        freq_prefix(p, stats, j) <= hi < freq_prefix(p, stats, j + 1),
        j < 256,
    ensures
        hi < 0x1_0000,
        j != k ==> freq_prefix(p, stats, k + 1) <= hi && count.wrapping_sub(f) == hi - freq_prefix(p, stats, k + 1),
        j == k ==> count.wrapping_sub(f) >= 0x8000_0000 && hi.wrapping_sub(count.wrapping_sub(f)).wrapping_sub(f)
            == freq_prefix(p, stats, k),
{
    lemma_freq_prefix_bound(p, stats, j + 1);
    lemma_freq_prefix_bound(p, stats, k);
    assert(freq_prefix(p, stats, k + 1) == freq_prefix(p, stats, k) + f);
    if j != k {
        lemma_freq_prefix_grows(p, stats, k + 1, j);
    } else {
        let c2 = count.wrapping_sub(f);
        assert(c2 == count + 0x1_0000_0000 - f);
        let h2 = hi.wrapping_sub(c2);
        assert(h2 == hi + 0x1_0000_0000 - c2);
        assert(h2 == freq_prefix(p, stats, k) + f);
        assert(h2.wrapping_sub(f) == h2 - f);
    }
}

/// A sum of `k` frequencies is at most `255 * k`.
pub proof fn lemma_freq_prefix_bound<RC>(p: Ppmd7<RC>, stats: u32, k: int)
    requires
        0 <= k,
    ensures
        0 <= freq_prefix(p, stats, k) <= 255 * k,
    decreases k,
{
    if k > 0 {
        lemma_freq_prefix_bound(p, stats, k - 1);
    }
}

/// The decoder escapes from a context of more than one state that has no suffix:
/// the count of the code lies past the parts of all its states (at most 256) and
/// below the context's sum, so the end marker is decoded.
pub open spec fn decodes_root_escape(p: Ppmd7<RangeDecoder7a>) -> bool {
    let mc = p.min_context;
    let stats = p.mem.spec_rd32(mc.wrapping_add(4));
    let summ = p.mem.spec_rd16(mc.wrapping_add(2));
    let ns = p.mem.spec_rd16(mc);
    let rg = p.rc.range / (summ as u32);
    &&& 2 <= ns <= 256
    &&& summ != 0
    &&& rg != 0
    &&& p.mem.spec_rd32(mc.wrapping_add(8)) == 0
    &&& freq_prefix(p, stats, ns as int) <= p.rc.code / rg < summ
}

/// The decoder narrowed to the escape part of the current context of `p`: past the
/// parts of its states, up to its sum.
pub open spec fn root_escape_mid(p: Ppmd7<RangeDecoder7a>) -> RangeDecoder7a {
    let mc = p.min_context;
    let stats = p.mem.spec_rd32(mc.wrapping_add(4));
    let summ = p.mem.spec_rd16(mc.wrapping_add(2)) as u32;
    let rg = p.rc.range / summ;
    let start = freq_prefix(p, stats, p.mem.spec_rd16(mc) as int) as u32;
    let (l, g) = carryless_interval(p.rc.low, rg, start, summ.wrapping_sub(start));
    RangeDecoder7a { low: l, range: g, code: p.rc.code.wrapping_sub(start.wrapping_mul(rg)), ..p.rc }
}

/// The decoder's first step picks the first state: the current context has more
/// than one state, and the code lies in the part of the first state (the count of
/// the code, less the first frequency, is negative as a 32-bit signed number).
pub open spec fn decodes_first_state(p: Ppmd7<RangeDecoder7a>) -> bool {
    let mc = p.min_context;
    let stats = p.mem.spec_rd32(mc.wrapping_add(4));
    let summ = p.mem.spec_rd16(mc.wrapping_add(2));
    let f0 = p.mem.spec_rd8(stats.wrapping_add(1));
    let rg = p.rc.range / (summ as u32);
    &&& p.mem.spec_rd16(mc) != 1
    &&& summ != 0
    &&& rg != 0
    &&& (p.rc.code / rg).wrapping_sub(f0 as u32) >= 0x8000_0000
}

/// The encoder's first step takes the first state: the current context has more
/// than one state, the first of which holds `symbol`, and its part of the range is
/// not empty.
pub open spec fn encodes_first_state(p: Ppmd7<RangeEncoder7a>, symbol: i32) -> bool {
    let mc = p.min_context;
    let stats = p.mem.spec_rd32(mc.wrapping_add(4));
    let summ = p.mem.spec_rd16(mc.wrapping_add(2));
    let f0 = p.mem.spec_rd8(stats.wrapping_add(1));
    let rg = p.rc.range / (summ as u32);
    &&& p.mem.spec_rd16(mc) != 1
    &&& summ != 0
    &&& p.mem.spec_rd8(stats) == symbol
    &&& rg.wrapping_mul(f0 as u32) != 0
}

/// The encoder's first step takes the `k`-th state (`k` from one) of the current
/// context of more than one state: the first state that holds `symbol`, with a part
/// of the range that is not empty.
pub open spec fn encodes_later_state(p: Ppmd7<RangeEncoder7a>, symbol: i32, k: int) -> bool {
    let mc = p.min_context;
    let stats = p.mem.spec_rd32(mc.wrapping_add(4));
    let summ = p.mem.spec_rd16(mc.wrapping_add(2));
    let s = crate::ppmd8::grow::state_offset(stats, k);
    let rg = p.rc.range / (summ as u32);
    &&& p.mem.spec_rd16(mc) != 1
    &&& summ != 0
    &&& 1 <= k < p.mem.spec_rd16(mc)
    &&& k < 256
    &&& p.mem.spec_rd8(s) == symbol
    &&& forall|j: int| 0 <= j < k ==> p.mem.spec_rd8(#[trigger] crate::ppmd8::grow::state_offset(stats, j)) != symbol
    &&& rg.wrapping_mul(p.mem.spec_rd8(s.wrapping_add(1)) as u32) != 0
}

/// The encoder escapes from a context of more than one state (at most 256) that has
/// no suffix and none of whose states holds `symbol`, with an escape part of the
/// range that is not empty: the end marker's coding from the root.
pub open spec fn encodes_root_escape(p: Ppmd7<RangeEncoder7a>, symbol: i32) -> bool {
    let mc = p.min_context;
    let stats = p.mem.spec_rd32(mc.wrapping_add(4));
    let summ = p.mem.spec_rd16(mc.wrapping_add(2)) as u32;
    let ns = p.mem.spec_rd16(mc);
    let rg = p.rc.range / summ;
    let start = freq_prefix(p, stats, ns as int) as u32;
    &&& 2 <= ns <= 256
    &&& summ != 0
    &&& p.mem.spec_rd32(mc.wrapping_add(8)) == 0
    &&& forall|j: int| 0 <= j < ns ==> p.mem.spec_rd8(#[trigger] crate::ppmd8::grow::state_offset(stats, j)) != symbol
    &&& rg.wrapping_mul(summ.wrapping_sub(start)) != 0
}

/// The encoder moved to the escape part of the current context of `p`: past the
/// parts of its states, up to its sum.
pub open spec fn root_escape_part(p: Ppmd7<RangeEncoder7a>) -> RangeEncoder7a {
    let mc = p.min_context;
    let stats = p.mem.spec_rd32(mc.wrapping_add(4));
    let summ = p.mem.spec_rd16(mc.wrapping_add(2)) as u32;
    let start = freq_prefix(p, stats, p.mem.spec_rd16(mc) as int) as u32;
    let (l, g) = carryless_interval(p.rc.low, p.rc.range / summ, start, summ.wrapping_sub(start));
    RangeEncoder7a { low: l, range: g, ..p.rc }
}

/// `b` is `a` after `decode_symbol` gave `r`: what the decoder reads and the model
/// becomes for a symbol found in the current context, the binary context's symbol, and
/// the end marker from a context without a suffix.
pub closed spec fn decode_step(a: Ppmd7<RangeDecoder7a>, b: Ppmd7<RangeDecoder7a>, r: Result<i32, IoError>) -> bool {
    &&& coder_frame7(a, b)
    &&& b.rc.wf()
    &&& b.rc.reader.data() == a.rc.reader.data()
    &&& r matches Ok(sym) ==> -2 <= sym < 256
    &&& r matches Err(e) ==> e == IoError::UnexpectedEof
    &&& ({
        let mc = a.min_context;
        let stats = a.mem.spec_rd32(mc.wrapping_add(4));
        let summ = a.mem.spec_rd16(mc.wrapping_add(2));
        let f0 = a.mem.spec_rd8(stats.wrapping_add(1));
        let rg = a.rc.range / (summ as u32);
        decodes_first_state(a) ==> {
            let (l, g) = carryless_interval(a.rc.low, rg, 0, f0 as u32);
            let mid = RangeDecoder7a { low: l, range: g, code: a.rc.code, ..a.rc };
            &&& carryless_decoder_normalized(
                mid,
                b.rc,
                match r {
                    Ok(_) => Ok::<(), IoError>(()),
                    Err(e) => Err(e),
                },
            )
            &&& r matches Ok(sym) ==> sym == a.mem.spec_rd8(stats)
            &&& r is Ok ==> first_state_updated7(
                Ppmd7 { rc: b.rc, found_state: stats, ..a },
                b,
            )
        }
    })
    &&& decodes_binary_symbol(a) ==> {
        &&& carryless_decoder_normalized(
            RangeDecoder7a { range: binary_split(a, a.rc.range), ..a.rc },
            b.rc,
            match r {
                Ok(_) => Ok::<(), IoError>(()),
                Err(e) => Err(e),
            },
        )
        &&& r matches Ok(sym) ==> sym == a.mem.spec_rd8(a.min_context.wrapping_add(2))
        &&& r is Ok ==> binary_state_updated7(a, b, a.min_context.wrapping_add(2))
    }
    &&& forall|k: int| #[trigger] decodes_later_state(a, k) ==> ({
        let mc = a.min_context;
        let stats = a.mem.spec_rd32(mc.wrapping_add(4));
        let rg = a.rc.range / (a.mem.spec_rd16(mc.wrapping_add(2)) as u32);
        let s = crate::ppmd8::grow::state_offset(stats, k);
        let start = freq_prefix(a, stats, k) as u32;
        let (l, g) = carryless_interval(a.rc.low, rg, start, a.mem.spec_rd8(s.wrapping_add(1)) as u32);
        let mid = RangeDecoder7a { low: l, range: g, code: a.rc.code.wrapping_sub(start.wrapping_mul(rg)), ..a.rc };
        &&& carryless_decoder_normalized(
            mid,
            b.rc,
            match r {
                Ok(_) => Ok::<(), IoError>(()),
                Err(e) => Err(e),
            },
        )
        &&& r matches Ok(sym) ==> sym == a.mem.spec_rd8(s)
    })
    &&& decodes_root_escape(a) ==> ({
        &&& carryless_decoder_normalized(
            root_escape_mid(a),
            b.rc,
            match r {
                Ok(_) => Ok::<(), IoError>(()),
                Err(e) => Err(e),
            },
        )
        &&& r is Ok ==> r == Ok::<i32, IoError>(SYM_END)
    })
}

/// `b` is `a` after `encode_symbol` coded `symbol`: what the encoder writes and the
/// model becomes for a symbol in the current context, the binary context's symbol, and
/// the end marker from a context without a suffix.
pub closed spec fn encode_step(a: Ppmd7<RangeEncoder7a>, b: Ppmd7<RangeEncoder7a>, symbol: i32) -> bool {
    &&& coder_frame7(a, b)
    &&& ({
        let mc = a.min_context;
        let stats = a.mem.spec_rd32(mc.wrapping_add(4));
        let summ = a.mem.spec_rd16(mc.wrapping_add(2));
        let f0 = a.mem.spec_rd8(stats.wrapping_add(1));
        let rg = a.rc.range / (summ as u32);
        a.mem.spec_rd16(mc) != 1 && summ != 0 && a.mem.spec_rd8(stats) == symbol && rg.wrapping_mul(
            f0 as u32,
        ) != 0 ==> {
            let (l, g) = carryless_interval(a.rc.low, rg, 0, f0 as u32);
            &&& crate::range_coding::carryless_encoder_normalized(
                RangeEncoder7a { low: l, range: g, ..a.rc },
                b.rc,
            )
            &&& first_state_updated7(Ppmd7 { rc: b.rc, found_state: stats, ..a }, b)
        }
    })
    &&& encodes_binary_symbol(a, symbol) ==> {
        &&& crate::range_coding::carryless_encoder_normalized(
            RangeEncoder7a { range: binary_split(a, a.rc.range), ..a.rc },
            b.rc,
        )
        &&& binary_state_updated7(a, b, a.min_context.wrapping_add(2))
    }
    &&& forall|k: int| #[trigger] encodes_later_state(a, symbol, k) ==> ({
        let mc = a.min_context;
        let stats = a.mem.spec_rd32(mc.wrapping_add(4));
        let rg = a.rc.range / (a.mem.spec_rd16(mc.wrapping_add(2)) as u32);
        let s = crate::ppmd8::grow::state_offset(stats, k);
        let (l, g) = carryless_interval(
            a.rc.low,
            rg,
            freq_prefix(a, stats, k) as u32,
            a.mem.spec_rd8(s.wrapping_add(1)) as u32,
        );
        crate::range_coding::carryless_encoder_normalized(
            RangeEncoder7a { low: l, range: g, ..a.rc },
            b.rc,
        )
    })
    &&& encodes_root_escape(a, symbol) ==> crate::range_coding::carryless_encoder_normalized(root_escape_part(a), b.rc)
}

/// The split of the range for the binary context of `p`: the range in units of the
/// binary scale times the context's probability.
pub open spec fn binary_split<RC>(p: Ppmd7<RC>, range: u32) -> u32 {
    (range / 0x4000).wrapping_mul(p.bin_summ@[bin_summ_entry(p)] as u32)
}

/// The decoder's first step takes the symbol of a context with one state: the code
/// lies below the split.
pub open spec fn decodes_binary_symbol(p: Ppmd7<RangeDecoder7a>) -> bool {
    &&& p.mem.spec_rd16(p.min_context) == 1
    &&& p.rc.code < binary_split(p, p.rc.range)
}

/// The encoder's first step takes the symbol of a context with one state: it is
/// `symbol`, and the split is not empty.
pub open spec fn encodes_binary_symbol(p: Ppmd7<RangeEncoder7a>, symbol: i32) -> bool {
    &&& p.mem.spec_rd16(p.min_context) == 1
    &&& p.mem.spec_rd8(p.min_context.wrapping_add(2)) == symbol
    &&& binary_split(p, p.rc.range) != 0
}

impl<RC> Ppmd7<RC> {
    /// The entry of the binary context probabilities for the current context, which
    /// holds one state: by that state's frequency, whether the last symbol was
    /// likely, the size of the suffix, the high flags of the found symbol and of the
    /// context's symbol, and whether a run is under way. Sets the high flag of the
    /// found symbol.
    pub fn bin_summ_index(&mut self) -> (i: usize)
        requires
            old(self).wf(),
        ensures
            i < 128 * 64,
            i == bin_summ_entry(*old(self)),
            *final(self) == (Ppmd7 { hi_bits_flag: final(self).hi_bits_flag, ..*old(self) }),
            final(self).hi_bits_flag == (if old(self).mem.spec_rd8(old(self).found_state) >= 0x40 { 8u32 } else { 0u32 }),
    {
        let one = self.one_state(self.min_context);
        let row = self.freq(one).wrapping_sub(1) % 128;
        let suffix_ns = self.num_stats(self.suffix(self.min_context));
        let bs = self.ns2bs_index[(suffix_ns.wrapping_sub(1) % 256) as usize] as u32;
        let ps: u32 = if self.prev_success != 0 {
            1
        } else {
            0
        };
        self.hi_bits_flag = hb_flag(self.sym(self.found_state));
        let run: u32 = if self.run_length < 0 {
            0x20
        } else {
            0
        };
        let col = ps + bs + self.hi_bits_flag + 2 * hb_flag(self.sym(one)) + run;
        (row * 64 + col) as usize
    }

    /// The escape estimator for the current context with `num_masked` of its states
    /// masked, and the escape frequency it gives; the estimator is charged with that
    /// frequency. The root, with all 256 symbols, uses a fixed estimator and
    /// frequency one.
    pub fn make_esc_freq(&mut self, num_masked: u32) -> (r: (Option<usize>, u32))
        requires
            old(self).wf(),
        ensures
            r.0 matches Some(i) ==> i < 25 * 16,
            r.1 >= 1,
            *final(self) == (Ppmd7 { see: final(self).see, ..*old(self) }),
            final(self).see.len() == old(self).see.len(),
            old(self).mem.spec_rd16(old(self).min_context) == 256 ==> r == (None::<usize>, 1u32),
            old(self).mem.spec_rd16(old(self).min_context) != 256 ==> ({
                let i = see_entry(*old(self), num_masked);
                let e = old(self).see@[i];
                let q = (e.summ as u32) >> ((e.shift as u32) % 32);
                &&& r.0 == Some(i as usize)
                &&& r.1 == (if q == 0 { 1 } else { q })
                &&& final(self).see@ == old(self).see@.update(i, See { summ: (e.summ as u32).wrapping_sub(q) as u16, ..e })
            }),
    {
        let mc = self.min_context;
        let ns = self.num_stats(mc);
        if ns == 256 {
            return (None, 1);
        }
        let non_masked = ns.wrapping_sub(num_masked);
        let row = self.ns2index[(non_masked.wrapping_sub(1) % 256) as usize] as u32;
        let suffix_ns = self.num_stats(self.suffix(mc));
        let a: u32 = if non_masked < suffix_ns.wrapping_sub(ns) {
            1
        } else {
            0
        };
        let b: u32 = if self.summ_freq(mc) < 11 * ns {
            2
        } else {
            0
        };
        let c: u32 = if num_masked > non_masked {
            4
        } else {
            0
        };
        let d: u32 = if self.hi_bits_flag != 0 {
            8
        } else {
            0
        };
        let i = (row * 16 + a + b + c + d) as usize;
        let mut see = self.see[i];
        let r = (see.summ as u32) >> ((see.shift as u32) % 32);
        see.summ = (see.summ as u32).wrapping_sub(r) as u16;
        self.see.set(i, see);
        let esc = if r == 0 {
            1
        } else {
            r
        };
        (Some(i), esc)
    }

    /// Counts a use of the escape estimator `src`.
    pub fn see_update(&mut self, src: Option<usize>)
        requires
            old(self).wf(),
            src matches Some(i) ==> i < 25 * 16,
        ensures
            frame7(*old(self), *final(self)),
            *final(self) == (Ppmd7 { see: final(self).see, dummy_see: final(self).dummy_see, ..*old(self) }),
            src matches Some(i) ==> final(self).see@ == old(self).see@.update(i as int, see_updated(old(self).see@[i as int]))
                && final(self).dummy_see == old(self).dummy_see,
            src is None ==> final(self).see == old(self).see && final(self).dummy_see == see_updated(old(self).dummy_see),
    {
        match src {
            Some(i) => {
                let mut see = self.see[i];
                see.update();
                self.see.set(i, see);
            },
            None => {
                let mut see = self.dummy_see;
                see.update();
                self.dummy_see = see;
            },
        }
    }

    /// Adds `total` to the sum of the escape estimator `src` after an escape.
    pub fn see_add(&mut self, src: Option<usize>, total: u32)
        requires
            old(self).wf(),
            src matches Some(i) ==> i < 25 * 16,
        ensures
            frame7(*old(self), *final(self)),
            *final(self) == (Ppmd7 { see: final(self).see, dummy_see: final(self).dummy_see, ..*old(self) }),
            src matches Some(i) ==> final(self).see@ == old(self).see@.update(
                i as int,
                See { summ: (old(self).see@[i as int].summ as u32).wrapping_add(total) as u16, ..old(self).see@[i as int] },
            ) && final(self).dummy_see == old(self).dummy_see,
            src is None ==> final(self).see == old(self).see && final(self).dummy_see == (See {
                summ: (old(self).dummy_see.summ as u32).wrapping_add(total) as u16,
                ..old(self).dummy_see
            }),
    {
        match src {
            Some(i) => {
                let mut see = self.see[i];
                see.summ = (see.summ as u32).wrapping_add(total) as u16;
                self.see.set(i, see);
            },
            None => {
                let mut see = self.dummy_see;
                see.summ = (see.summ as u32).wrapping_add(total) as u16;
                self.dummy_see = see;
            },
        }
    }

    /// Masks the symbols of the `n` states from `stats`.
    fn mask_states(&self, mask: &mut Vec<u8>, stats: u32, n: u32)
        requires
            old(mask).len() == 256,
        ensures
            final(mask).len() == 256,
            forall|j: int|
                0 <= j < n && j < 256 ==> #[trigger] final(mask)@[self.mem.spec_rd8(crate::ppmd8::grow::state_offset(stats, j)) as int] == 0,
            forall|x: int|
                0 <= x < 256 && final(mask)@[x] != old(mask)@[x] ==> final(mask)@[x] == 0,
    {
        let mut s = stats;
        let mut k: u32 = 0;
        while k < n && k < 256
            invariant
                mask.len() == 256,
                k <= 256,
                s == crate::ppmd8::grow::state_offset(stats, k as int),
                forall|j: int| 0 <= j < k ==> #[trigger] mask@[self.mem.spec_rd8(crate::ppmd8::grow::state_offset(stats, j)) as int] == 0,
                forall|x: int| 0 <= x < 256 && mask@[x] != old(mask)@[x] ==> mask@[x] == 0,
            decreases 256 - k,
        {
            let sym = self.sym(s);
            mask.set(sym as usize, 0);
            proof {
                vstd::arithmetic::div_mod::lemma_add_mod_noop(stats + 6 * k, 6, 0x1_0000_0000);
                vstd::arithmetic::div_mod::lemma_small_mod(6, 0x1_0000_0000);
            }
            s = s.wrapping_add(6);
            k = k + 1;
        }
    }

    /// The sum of the frequencies of the `n` states from `stats` whose symbols are not
    /// masked.
    fn unmasked_sum(&self, mask: &Vec<u8>, stats: u32, n: u32) -> (r: u32)
        requires
            mask.len() == 256,
        ensures
            r == unmasked_sum_spec(*self, mask@, stats, if n < 256 { n as int } else { 256 }),
    {
        let mut s = stats;
        let mut sum: u32 = 0;
        let mut k: u32 = 0;
        while k < n && k < 256
            invariant
                mask.len() == 256,
                sum <= 255 * k,
                k <= 256,
                k <= n,
                s == crate::ppmd8::grow::state_offset(stats, k as int),
                sum == unmasked_sum_spec(*self, mask@, stats, k as int),
            decreases 256 - k,
        {
            if mask[self.sym(s) as usize] != 0 {
                sum = sum + self.freq(s);
            }
            proof {
                vstd::arithmetic::div_mod::lemma_add_mod_noop(stats + 6 * k, 6, 0x1_0000_0000);
                vstd::arithmetic::div_mod::lemma_small_mod(6, 0x1_0000_0000);
            }
            s = s.wrapping_add(6);
            k = k + 1;
        }
        sum
    }
}

impl Ppmd7<RangeDecoder7a> {
    /// Decodes one symbol and updates the model with it.
    ///
    /// In a context of more than one state, the part of the range that holds the code
    /// picks the state, in the order of the states, each taking a part as large as its
    /// frequency; past the last state lies the escape. In a context of one state, a
    /// binary split by the context's probability decides between its symbol and the
    /// escape. After an escape the decoder goes on in the next shorter context that has
    /// more states, with the symbols seen so far masked out and the escape estimated
    /// by the escape estimators. An escape from the root is the end marker
    /// (`SYM_END`); a code outside every part gives `SYM_ERROR`. `Err` means the
    /// stream ran out.
    ///
    /// Where the first step picks a state of the current context, the decoder is
    /// narrowed to that state's part and normalized, and the state's symbol is
    /// returned; for the first state the model is updated as `update1_0` updates it,
    /// for a binary context as `update_bin` does.
    #[verifier::spinoff_prover]
    #[verifier::rlimit(100)]
    pub fn decode_symbol(&mut self) -> (r: Result<i32, IoError>)
        requires
            old(self).wf(),
            old(self).rc.wf(),
        ensures
            coder_frame7(*old(self), *final(self)),
            final(self).rc.wf(),
            final(self).rc.reader.data() == old(self).rc.reader.data(),
            r matches Ok(sym) ==> -2 <= sym < 256,
            r matches Err(e) ==> e == IoError::UnexpectedEof,
            decode_step(*old(self), *final(self), r),
    {
        let ghost bin_hit = decodes_binary_symbol(*old(self));
        let ghost first_hit = decodes_first_state(*old(self));
        let ghost esc_root = decodes_root_escape(*old(self));
        let mut mask: Vec<u8> = Vec::new();
        let mut z: u32 = 0;
        while z < 256
            invariant
                z <= 256,
                mask.len() == z,
            decreases 256 - z,
        {
            mask.push(0xFF);
            z = z + 1;
        }
        let mc = self.min_context;
        if self.num_stats(mc) != 1 {
            let stats = self.stats(mc);
            let mut s = stats;
            let summ = self.summ_freq(mc);
            if summ == 0 || self.rc.range / summ == 0 {
                return Ok(SYM_ERROR);
            }
            let mut count = self.rc.get_threshold(summ);
            let hi_cnt = count;
            let ghost rc_t = self.rc;
            let f = self.freq(s);
            count = count.wrapping_sub(f);
            proof {
                assert(crate::ppmd8::grow::state_offset(stats, 0) == stats);
                assert(freq_prefix(*old(self), stats, 0) == 0);
                assert forall|j: int| #[trigger] decodes_later_state(*old(self), j) implies hi_cnt >= freq_prefix(*old(self), stats, 1)
                    && count == hi_cnt - freq_prefix(*old(self), stats, 1) && hi_cnt < 0x1_0000 by {
                    lemma_later_step(*old(self), stats, 0, j, hi_cnt, hi_cnt, f);
                }
                if esc_root {
                    lemma_freq_prefix_grows(*old(self), stats, 1, old(self).mem.spec_rd16(mc) as int);
                    lemma_freq_prefix_bound(*old(self), stats, 1);
                    assert(count == hi_cnt - freq_prefix(*old(self), stats, 1));
                }
            }
            if count >= 0x8000_0000 {
                let sym = self.sym(s);
                self.rc.decode_final(0, f)?;
                self.found_state = s;
                let ghost pre = *self;
                self.update1_0();
                proof {
                    assert(pre == (Ppmd7 { rc: self.rc, found_state: stats, ..*old(self) }));
                }
                return Ok(sym as i32);
            }
            proof {
                assert(!first_hit);
                assert(!bin_hit);
            }
            self.prev_success = 0;
            let ns = self.num_stats(mc);
            let mut k: u32 = 1;
            while k < ns && k < 256
                invariant
                    self.mem == old(self).mem,
                    self.min_context == old(self).min_context,
                    self.rc == rc_t,
                    rc_t.range == old(self).rc.range / (summ as u32),
                    rc_t.code == old(self).rc.code,
                    rc_t.low == old(self).rc.low,
                    hi_cnt == old(self).rc.code / rc_t.range,
                    stats == old(self).mem.spec_rd32(mc.wrapping_add(4)),
                    summ == old(self).mem.spec_rd16(mc.wrapping_add(2)),
                    mc == old(self).min_context,
                    ns == old(self).mem.spec_rd16(mc),
                    s == crate::ppmd8::grow::state_offset(stats, k - 1),
                    forall|j: int| #[trigger] decodes_later_state(*old(self), j) ==> k <= j && hi_cnt >= freq_prefix(
                        *old(self),
                        stats,
                        k as int,
                    ) && count == hi_cnt - freq_prefix(*old(self), stats, k as int) && hi_cnt < 0x1_0000,
                    rc_t == (RangeDecoder7a { range: rc_t.range, ..old(self).rc }),
                    esc_root == decodes_root_escape(*old(self)),
                    esc_root ==> k <= ns && hi_cnt >= freq_prefix(*old(self), stats, ns as int) && count == hi_cnt - freq_prefix(
                        *old(self),
                        stats,
                        k as int,
                    ) && hi_cnt < 0x1_0000,
                    self.wf(),
                    self.rc.wf(),
                    self.rc.reader.data() == old(self).rc.reader.data(),
                    self.max_order == old(self).max_order,
                    self.size == old(self).size,
                    self.align_offset == old(self).align_offset,
                    mask.len() == 256,
                    1 <= k <= 256,
                    !first_hit,
                    first_hit == decodes_first_state(*old(self)),
                    !bin_hit,
                    bin_hit == decodes_binary_symbol(*old(self)),
                decreases 256 - k,
            {
                proof {
                    vstd::arithmetic::div_mod::lemma_add_mod_noop(stats + 6 * (k - 1), 6, 0x1_0000_0000);
                    vstd::arithmetic::div_mod::lemma_small_mod(6, 0x1_0000_0000);
                    assert(crate::ppmd8::grow::state_offset(stats, k as int) == s.wrapping_add(6));
                }
                s = s.wrapping_add(6);
                let f = self.freq(s);
                let ghost count0 = count;
                count = count.wrapping_sub(f);
                proof {
                    if esc_root {
                        assert(freq_prefix(*old(self), stats, k + 1) == freq_prefix(*old(self), stats, k as int) + f);
                        lemma_freq_prefix_grows(*old(self), stats, k + 1, ns as int);
                        lemma_freq_prefix_bound(*old(self), stats, k as int);
                        assert(count == hi_cnt - freq_prefix(*old(self), stats, k + 1));
                    }
                    assert forall|j: int| #[trigger] decodes_later_state(*old(self), j) && j != k implies hi_cnt >= freq_prefix(
                        *old(self),
                        stats,
                        k + 1,
                    ) && count == hi_cnt - freq_prefix(*old(self), stats, k + 1) && hi_cnt < 0x1_0000 by {
                        lemma_later_step(*old(self), stats, k as int, j, hi_cnt, count0, f);
                    }
                    assert forall|j: int| #[trigger] decodes_later_state(*old(self), j) && j == k implies count >= 0x8000_0000
                        && hi_cnt.wrapping_sub(count).wrapping_sub(f) == freq_prefix(*old(self), stats, k as int) && hi_cnt
                        < 0x1_0000 && 0 <= freq_prefix(*old(self), stats, k as int) by {
                        lemma_later_step(*old(self), stats, k as int, j, hi_cnt, count0, f);
                        lemma_freq_prefix_bound(*old(self), stats, k as int);
                    }
                }
                if count >= 0x8000_0000 {
                    let sym = self.sym(s);
                    let start = hi_cnt.wrapping_sub(count).wrapping_sub(f);
                    proof {
                        assert forall|j: int| #[trigger] decodes_later_state(*old(self), j) implies j == k
                            && start == freq_prefix(*old(self), stats, j) && f == old(self).mem.spec_rd8(
                            crate::ppmd8::grow::state_offset(stats, j).wrapping_add(1),
                        ) && sym == old(self).mem.spec_rd8(crate::ppmd8::grow::state_offset(stats, j)) by {
                            if j != k {
                                assert(count == hi_cnt - freq_prefix(*old(self), stats, k + 1) && hi_cnt < 0x1_0000);
                                lemma_freq_prefix_bound(*old(self), stats, k + 1);
                            }
                        }
                    }
                    let ghost rc0 = self.rc;
                    let rr = self.rc.decode_final(start, f);
                    proof {
                        assert(rc0 == rc_t);
                    }
                    match rr {
                        Err(e) => {
                            return Err(e);
                        },
                        Ok(()) => {},
                    }
                    self.found_state = s;
                    self.update1();
                    return Ok(sym as i32);
                }
                k = k + 1;
            }
            if hi_cnt >= summ {
                return Ok(SYM_ERROR);
            }
            let hi = hi_cnt.wrapping_sub(count);
            proof {
                if esc_root {
                    assert(k == ns);
                    lemma_freq_prefix_bound(*old(self), stats, ns as int);
                    assert(hi == freq_prefix(*old(self), stats, ns as int));
                }
            }
            self.rc.decode(hi, summ.wrapping_sub(hi));
            self.hi_bits_flag = hb_flag(self.sym(self.found_state));
            self.mask_states(&mut mask, stats, ns);
            proof {
                if esc_root {
                    assert(self.rc == root_escape_mid(*old(self)));
                }
            }
        } else {
            let one = self.one_state(mc);
            let range = self.rc.range;
            let code = self.rc.code;
            let idx = self.bin_summ_index();
            let pr0 = self.bin_summ[idx] as u32;
            let size0 = (range / 0x4000).wrapping_mul(pr0);
            let pr = prob_less_mean(pr0);
            if code < size0 {
                self.bin_summ.set(idx, (pr + 128) as u16);
                let sym = self.sym(one);
                self.rc.decode_bit_0(size0)?;
                self.update_bin(one);
                return Ok(sym as i32);
            }
            proof {
                assert(!bin_hit);
            }
            self.bin_summ.set(idx, pr as u16);
            let e = if pr / 1024 < 16 {
                pr / 1024
            } else {
                15
            };
            self.init_esc = exp_escape_exec(e) as u32;
            self.rc.decode_bit_1(size0);
            let sym = self.sym(one);
            mask.set(sym as usize, 0);
            self.prev_success = 0;
        }
        let mut fuel: u32 = 0x1_0000;
        while fuel > 0
            invariant
                self.wf(),
                self.rc.wf(),
                self.rc.reader.data() == old(self).rc.reader.data(),
                self.max_order == old(self).max_order,
                self.size == old(self).size,
                self.align_offset == old(self).align_offset,
                mask.len() == 256,
                !first_hit,
                    first_hit == decodes_first_state(*old(self)),
                    !bin_hit,
                    bin_hit == decodes_binary_symbol(*old(self)),
                forall|j: int| !#[trigger] decodes_later_state(*old(self), j),
                esc_root == decodes_root_escape(*old(self)),
                esc_root ==> fuel == 0x1_0000 && self.rc == root_escape_mid(*old(self)) && self.mem == old(self).mem && self.min_context == old(
                    self,
                ).min_context,
            decreases fuel,
        {
            fuel = fuel - 1;
            self.rc.normalize_remote()?;
            let mut mc = self.min_context;
            let num_masked = self.num_stats(mc);
            let mut fuel2: u32 = 0x1_0000;
            loop
                invariant
                    esc_root == decodes_root_escape(*old(self)),
                    esc_root ==> mc == old(self).min_context && self.mem == old(self).mem && carryless_decoder_normalized(
                        root_escape_mid(*old(self)),
                        self.rc,
                        Ok::<(), IoError>(()),
                    ),
                    self.wf(),
                    self.rc.wf(),
                    self.rc.reader.data() == old(self).rc.reader.data(),
                    self.max_order == old(self).max_order,
                    self.size == old(self).size,
                    self.align_offset == old(self).align_offset,
                    mask.len() == 256,
                    !first_hit,
                    first_hit == decodes_first_state(*old(self)),
                    !bin_hit,
                    bin_hit == decodes_binary_symbol(*old(self)),
                    forall|j: int| !#[trigger] decodes_later_state(*old(self), j),
                ensures
                    !esc_root,
                decreases fuel2,
            {
                self.order_fall = self.order_fall.wrapping_add(1);
                let suffix = self.suffix(mc);
                if suffix == 0 || fuel2 == 0 {
                    return Ok(SYM_END);
                }
                fuel2 = fuel2 - 1;
                mc = suffix;
                if self.num_stats(mc) != num_masked {
                    break;
                }
            }
            let ns = self.num_stats(mc);
            let stats = self.stats(mc);
            let hi_cnt = self.unmasked_sum(&mask, stats, ns);
            self.min_context = mc;
            let (see_src, esc) = self.make_esc_freq(num_masked);
            let freq_sum = esc.wrapping_add(hi_cnt);
            if freq_sum == 0 || self.rc.range / freq_sum == 0 {
                return Ok(SYM_ERROR);
            }
            let mut count = self.rc.get_threshold(freq_sum);
            if count < hi_cnt {
                let hi = count;
                let mut s = stats;
                let mut k: u32 = 0;
                while k < 256
                    invariant
                        mask.len() == 256,
                        k <= 256,
                        !first_hit,
                    first_hit == decodes_first_state(*old(self)),
                    !bin_hit,
                    bin_hit == decodes_binary_symbol(*old(self)),
                    decreases 256 - k,
                {
                    let f = if mask[self.sym(s) as usize] != 0 {
                        self.freq(s)
                    } else {
                        0
                    };
                    count = count.wrapping_sub(f);
                    s = s.wrapping_add(6);
                    k = k + 1;
                    if count >= 0x8000_0000 {
                        break;
                    }
                }
                s = s.wrapping_sub(6);
                let f = self.freq(s);
                let sym = self.sym(s);
                self.rc.decode_final(hi.wrapping_sub(count).wrapping_sub(f), f)?;
                self.see_update(see_src);
                self.found_state = s;
                self.update2();
                return Ok(sym as i32);
            }
            if count >= freq_sum {
                return Ok(SYM_ERROR);
            }
            self.rc.decode(hi_cnt, freq_sum.wrapping_sub(hi_cnt));
            self.see_add(see_src, freq_sum);
            self.mask_states(&mut mask, stats, ns);
        }
        Ok(SYM_ERROR)
    }
}

/// Takes the part `[start, start + freq)` of the range and normalizes, where the
/// part is not empty.
fn encode_part(rc: &mut RangeEncoder7a, start: u32, freq: u32)
    ensures
        old(rc).range.wrapping_mul(freq) != 0 ==> ({
            let (l, g) = carryless_interval(old(rc).low, old(rc).range, start, freq);
            crate::range_coding::carryless_encoder_normalized(RangeEncoder7a { low: l, range: g, ..*old(rc) }, *final(rc))
        }),
        old(rc).range.wrapping_mul(freq) == 0 ==> (final(rc).low, final(rc).range) == carryless_interval(
            old(rc).low,
            old(rc).range,
            start,
            freq,
        ) && final(rc).writer == old(rc).writer,
        old(rc).writer.data().is_prefix_of(final(rc).writer.data()),
{
    if rc.range.wrapping_mul(freq) != 0 {
        rc.encode_final(start, freq);
        proof {
            let (l, g) = carryless_interval(old(rc).low, old(rc).range, start, freq);
            let (l2, g2, out) = crate::range_coding::carryless_normalized(l, g);
            crate::range_coding::lemma_prefix_append(old(rc).writer.data(), out);
        }
    } else {
        rc.encode(start, freq);
    }
}

impl Ppmd7<RangeEncoder7a> {
    /// Encodes `symbol`, or the end marker for `-1`, and updates the model as
    /// `decode_symbol` does after decoding it.
    ///
    /// In a context of more than one state the range moves to the symbol's part, the
    /// frequencies of the states before it summed as its start; where the symbol is
    /// missing, to the escape past the last state. In a context of one state, to the
    /// lower part of the binary split for its symbol, else to the upper part. After
    /// an escape the encoder goes on in the next shorter context that has more states,
    /// with the symbols seen so far masked out; the end marker escapes down to the
    /// root and beyond.
    ///
    /// Where the symbol is in the current context, the encoder moves to the part of
    /// its first state that holds it, after the parts of the states before it, and
    /// normalizes; for the first state the model is updated as `update1_0` updates it,
    /// for a binary context as `update_bin` does.
    pub fn encode_symbol(&mut self, symbol: i32)
        requires
            old(self).wf(),
            -1 <= symbol < 256,
        ensures
            coder_frame7(*old(self), *final(self)),
            encode_step(*old(self), *final(self), symbol),
            old(self).rc.writer.data().is_prefix_of(final(self).rc.writer.data()),
    {
        let ghost enc_root = encodes_root_escape(*old(self), symbol);
        let ghost w0 = old(self).rc.writer.data();
        proof {
            assert(w0 =~= w0.subrange(0, w0.len() as int));
        }
        let ghost bin_hit = encodes_binary_symbol(*old(self), symbol);
        let ghost first_hit = encodes_first_state(*old(self), symbol);
        let mut mask: Vec<u8> = Vec::new();
        let mut z: u32 = 0;
        while z < 256
            invariant
                w0.is_prefix_of(self.rc.writer.data()),
                w0 == old(self).rc.writer.data(),
                z <= 256,
                mask.len() == z,
            decreases 256 - z,
        {
            mask.push(0xFF);
            z = z + 1;
        }
        let mc = self.min_context;
        if self.num_stats(mc) != 1 {
            let stats = self.stats(mc);
            let mut s = stats;
            let summ = self.summ_freq(mc);
            if summ == 0 {
                return;
            }
            self.rc.div_range(summ);
            if self.sym(s) as i32 == symbol {
                let f = self.freq(s);
                let ghost wb = self.rc.writer.data();
                encode_part(&mut self.rc, 0, f);
                proof {
                    crate::range_coding::lemma_prefix_trans(w0, wb, self.rc.writer.data());
                }
                self.found_state = s;
                let ghost pre = *self;
                self.update1_0();
                proof {
                    assert(pre == (Ppmd7 { rc: self.rc, found_state: stats, ..*old(self) }));
                    assert(crate::ppmd8::grow::state_offset(stats, 0) == stats);
                }
                return;
            }
            proof {
                assert(!first_hit);
                assert(!bin_hit);
            }
            self.prev_success = 0;
            let mut sum = self.freq(s);
            let ghost rc_d = self.rc;
            proof {
                assert(crate::ppmd8::grow::state_offset(stats, 0) == stats);
                assert(freq_prefix(*old(self), stats, 0) == 0);
                assert(sum == freq_prefix(*old(self), stats, 1));
            }
            let ns = self.num_stats(mc);
            let mut k: u32 = 1;
            while k < ns && k < 256
                invariant
                    w0.is_prefix_of(self.rc.writer.data()),
                    w0 == old(self).rc.writer.data(),
                    self.mem == old(self).mem,
                    self.min_context == old(self).min_context,
                    self.rc == rc_d,
                    rc_d == (RangeEncoder7a { range: old(self).rc.range / (summ as u32), ..old(self).rc }),
                    stats == old(self).mem.spec_rd32(mc.wrapping_add(4)),
                    summ == old(self).mem.spec_rd16(mc.wrapping_add(2)),
                    mc == old(self).min_context,
                    ns == old(self).mem.spec_rd16(mc),
                    s == crate::ppmd8::grow::state_offset(stats, k - 1),
                    sum == freq_prefix(*old(self), stats, k as int),
                    forall|j: int| #[trigger] encodes_later_state(*old(self), symbol, j) ==> k <= j,
                    enc_root == encodes_root_escape(*old(self), symbol),
                    enc_root ==> k <= ns,
                    self.wf(),
                    self.max_order == old(self).max_order,
                    self.size == old(self).size,
                    self.align_offset == old(self).align_offset,
                    mask.len() == 256,
                    1 <= k <= 256,
                    sum <= 255 * k,
                    !first_hit,
                    first_hit == encodes_first_state(*old(self), symbol),
                    !bin_hit,
                    bin_hit == encodes_binary_symbol(*old(self), symbol),
                decreases 256 - k,
            {
                proof {
                    vstd::arithmetic::div_mod::lemma_add_mod_noop(stats + 6 * (k - 1), 6, 0x1_0000_0000);
                    vstd::arithmetic::div_mod::lemma_small_mod(6, 0x1_0000_0000);
                    assert(crate::ppmd8::grow::state_offset(stats, k as int) == s.wrapping_add(6));
                }
                s = s.wrapping_add(6);
                if self.sym(s) as i32 == symbol {
                    let f = self.freq(s);
                    proof {
                        assert forall|j: int| #[trigger] encodes_later_state(*old(self), symbol, j) implies j == k by {
                            if j > k {
                                assert(old(self).mem.spec_rd8(crate::ppmd8::grow::state_offset(stats, k as int)) != symbol);
                            }
                        }
                    }
                    let ghost wb = self.rc.writer.data();
                    encode_part(&mut self.rc, sum, f);
                    proof {
                        crate::range_coding::lemma_prefix_trans(w0, wb, self.rc.writer.data());
                    }
                    self.found_state = s;
                    self.update1();
                    return;
                }
                proof {
                    assert forall|j: int| #[trigger] encodes_later_state(*old(self), symbol, j) implies k + 1 <= j by {
                        if j == k {
                            assert(old(self).mem.spec_rd8(crate::ppmd8::grow::state_offset(stats, k as int)) == symbol);
                        }
                    }
                }
                sum = sum + self.freq(s);
                k = k + 1;
            }
            self.rc.encode(sum, summ.wrapping_sub(sum));
            self.hi_bits_flag = hb_flag(self.sym(self.found_state));
            self.mask_states(&mut mask, stats, ns);
            proof {
                if enc_root {
                    assert(k == ns);
                    lemma_freq_prefix_bound(*old(self), stats, ns as int);
                    assert(self.rc == root_escape_part(*old(self)));
                }
            }
        } else {
            let one = self.one_state(mc);
            let range = self.rc.range;
            let idx = self.bin_summ_index();
            let pr0 = self.bin_summ[idx] as u32;
            let bound = (range / 0x4000).wrapping_mul(pr0);
            let pr = prob_less_mean(pr0);
            if self.sym(one) as i32 == symbol {
                self.bin_summ.set(idx, (pr + 128) as u16);
                if bound != 0 {
                    let ghost wb = self.rc.writer.data();
                    self.rc.encode_bit_0(bound);
                    proof {
                        crate::range_coding::lemma_prefix_trans(w0, wb, self.rc.writer.data());
                    }
                }
                self.update_bin(one);
                return;
            }
            proof {
                assert(!bin_hit);
            }
            self.bin_summ.set(idx, pr as u16);
            let e = if pr / 1024 < 16 {
                pr / 1024
            } else {
                15
            };
            self.init_esc = exp_escape_exec(e) as u32;
            self.rc.encode_bit_1(bound);
            let sym = self.sym(one);
            mask.set(sym as usize, 0);
            self.prev_success = 0;
        }
        let mut fuel: u32 = 0x1_0000;
        while fuel > 0
            invariant
                w0.is_prefix_of(self.rc.writer.data()),
                w0 == old(self).rc.writer.data(),
                self.wf(),
                self.max_order == old(self).max_order,
                self.size == old(self).size,
                self.align_offset == old(self).align_offset,
                mask.len() == 256,
                -1 <= symbol < 256,
                !first_hit,
                    first_hit == encodes_first_state(*old(self), symbol),
                    !bin_hit,
                    bin_hit == encodes_binary_symbol(*old(self), symbol),
                    forall|j: int| !#[trigger] encodes_later_state(*old(self), symbol, j),
                enc_root == encodes_root_escape(*old(self), symbol),
                enc_root ==> fuel == 0x1_0000 && self.rc == root_escape_part(*old(self)) && self.mem == old(self).mem
                    && self.min_context == old(self).min_context,
            decreases fuel,
        {
            fuel = fuel - 1;
            if self.rc.range != 0 {
                let ghost wb = self.rc.writer.data();
                self.rc.normalize_remote();
                proof {
                    crate::range_coding::lemma_prefix_trans(w0, wb, self.rc.writer.data());
                }
            }
            let mut mc = self.min_context;
            let num_masked = self.num_stats(mc);
            let mut fuel2: u32 = 0x1_0000;
            loop
                invariant
                    w0.is_prefix_of(self.rc.writer.data()),
                    w0 == old(self).rc.writer.data(),
                    enc_root == encodes_root_escape(*old(self), symbol),
                    enc_root ==> mc == old(self).min_context && self.mem == old(self).mem
                        && crate::range_coding::carryless_encoder_normalized(root_escape_part(*old(self)), self.rc),
                    self.wf(),
                    self.max_order == old(self).max_order,
                    self.size == old(self).size,
                    self.align_offset == old(self).align_offset,
                    mask.len() == 256,
                    !first_hit,
                    first_hit == encodes_first_state(*old(self), symbol),
                    !bin_hit,
                    bin_hit == encodes_binary_symbol(*old(self), symbol),
                    forall|j: int| !#[trigger] encodes_later_state(*old(self), symbol, j),
                ensures
                    !enc_root,
                decreases fuel2,
            {
                self.order_fall = self.order_fall.wrapping_add(1);
                let suffix = self.suffix(mc);
                if suffix == 0 || fuel2 == 0 {
                    return;
                }
                fuel2 = fuel2 - 1;
                mc = suffix;
                if self.num_stats(mc) != num_masked {
                    break;
                }
            }
            self.min_context = mc;
            let ns = self.num_stats(mc);
            let stats = self.stats(mc);
            let (see_src, esc) = self.make_esc_freq(num_masked);
            let mut s = stats;
            let mut sum: u32 = 0;
            let mut k: u32 = 0;
            while k < ns && k < 256
                invariant
                    w0.is_prefix_of(self.rc.writer.data()),
                    w0 == old(self).rc.writer.data(),
                    self.wf(),
                    self.max_order == old(self).max_order,
                    self.size == old(self).size,
                    self.align_offset == old(self).align_offset,
                    mask.len() == 256,
                    see_src matches Some(i) ==> i < 25 * 16,
                    k <= 256,
                    sum <= 255 * k,
                    !first_hit,
                    first_hit == encodes_first_state(*old(self), symbol),
                    !bin_hit,
                    bin_hit == encodes_binary_symbol(*old(self), symbol),
                    forall|j: int| !#[trigger] encodes_later_state(*old(self), symbol, j),
                    !enc_root,
                    enc_root == encodes_root_escape(*old(self), symbol),
                    -1 <= symbol < 256,
                decreases 256 - k,
            {
                let cur = self.sym(s);
                if cur as i32 == symbol {
                    let low = sum;
                    let f = self.freq(s);
                    self.see_update(see_src);
                    self.found_state = s;
                    let rest = self.unmasked_sum(&mask, s.wrapping_add(6), ns.wrapping_sub(k).wrapping_sub(1));
                    let total = sum.wrapping_add(esc).wrapping_add(f).wrapping_add(rest);
                    if total != 0 {
                        self.rc.div_range(total);
                    }
                    let ghost wb = self.rc.writer.data();
                    encode_part(&mut self.rc, low, f);
                    proof {
                        crate::range_coding::lemma_prefix_trans(w0, wb, self.rc.writer.data());
                    }
                    self.update2();
                    return;
                }
                if mask[cur as usize] != 0 {
                    sum = sum + self.freq(s);
                }
                s = s.wrapping_add(6);
                k = k + 1;
            }
            let total = sum.wrapping_add(esc);
            self.see_add(see_src, total);
            if total != 0 {
                self.rc.div_range(total);
            }
            self.rc.encode(sum, esc);
            self.mask_states(&mut mask, stats, ns);
        }
    }
}

} // verus!

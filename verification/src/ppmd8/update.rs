//! The fields of contexts and states in the PPMd8 model memory, and what the model
//! does when that memory runs full: shrinking a context after states were dropped,
//! pruning the context tree, measuring the memory in use, and restoring the model.
//!
//! The model lives in a memory that a corrupt stream can make inconsistent. Every
//! access stays inside that memory; where the bookkeeping read back is out of range
//! (a state count of zero where states must follow, a size class past the last), or
//! a walk along the model does not end, the functions stop early; on a consistent
//! model neither ever happens.

use vstd::prelude::*;

use super::units::{alloc_frame, node_inserted, node_removed, old_block_bytes, same_areas, shrink_moves, shrink_target};
use super::model::{hi_bits_convert_3, hi_bits_flag3, hi_bits_prepare, Ppmd8};
use super::arena::{fits, le16, le32, same_outside};
use vstd::arithmetic::div_mod::lemma_sub_mod_noop;
use super::index_units;
use super::{RestoreMethod, FLAG_PREV_HIGH, FLAG_RESCALED, PPMD_NUM_INDEXES, UNIT_SIZE};

verus! {

/// The model `b` is consistent and is `a` with the same coder and parameters.
pub open spec fn model_frame<RC>(a: Ppmd8<RC>, b: Ppmd8<RC>) -> bool {
    &&& b.wf()
    &&& b.rc == a.rc
    &&& b.max_order == a.max_order
    &&& b.size == a.size
    &&& b.align_offset == a.align_offset
    &&& b.restore_method == a.restore_method
}

/// The run of likely symbols and its start value are those of `a` in `b`.
pub open spec fn run_kept<RC>(a: Ppmd8<RC>, b: Ppmd8<RC>) -> bool {
    &&& b.run_length == a.run_length
    &&& b.init_rl == a.init_rl
}

/// The model `b` is `a` with only the bytes of its memory changed.
pub open spec fn mem_only<RC>(a: Ppmd8<RC>, b: Ppmd8<RC>) -> bool {
    &&& b == (Ppmd8 { mem: b.mem, ..a })
    &&& b.mem.bytes().len() == a.mem.bytes().len()
}

/// No state of the context `ctx` has a successor that is a context: each points
/// below the start of the units area.
pub open spec fn states_lead_nowhere<RC>(p: Ppmd8<RC>, ctx: u32) -> bool {
    let stats = p.mem.spec_rd32(ctx.wrapping_add(4));
    forall|j: int|
        0 <= j <= p.mem.spec_rd8(ctx) ==> p.mem.spec_rd32(#[trigger] super::grow::state_offset(stats, j).wrapping_add(2))
            < p.units_start
}

/// The states of the context `ctx`, of more than one state, lie inside the memory and
/// apart from the context's own fields.
pub open spec fn context_states_apart<RC>(p: Ppmd8<RC>, ctx: u32) -> bool {
    let stats = p.mem.spec_rd32(ctx.wrapping_add(4)) as int;
    let n = p.mem.spec_rd8(ctx) as int + 1;
    let len = p.mem.bytes().len();
    &&& stats + 6 * n <= len
    &&& ctx + 12 <= len
    &&& (ctx + 12 <= stats || stats + 6 * n <= ctx)
}

/// `cut_off` leaves the states of the context `ctx` where they are: they lie further
/// from the start of the units area than it moves blocks from, or no free block of
/// their size class lies at or above them.
pub open spec fn states_stay<RC>(p: Ppmd8<RC>, ctx: u32) -> bool {
    let t = (p.mem.spec_rd8(ctx) as u32 + 2) as u32;
    let nu = t >> 1;
    let stats = p.mem.spec_rd32(ctx.wrapping_add(4));
    let index = p.units2index@[nu - 1];
    !(stats.wrapping_sub(p.units_start) <= (1u32 << 14) && stats <= p.free_list@[index as int])
}

/// A frequency divided by two, rounded up, when `scale` is one; unchanged when it
/// is zero.
pub fn scale_freq(freq: u32, scale: u32) -> (r: u32)
    requires
        freq < 256,
        scale <= 1,
    ensures
        r == (if scale == 1 { (freq + 1) / 2 } else { freq as int }),
        r < 256,
{
    let sum: u32 = freq + scale;
    assert(sum >> scale == (if scale == 1 { (freq + 1) / 2 } else { freq as int }))
        by (bit_vector)
        requires
            freq < 256,
            scale <= 1,
            sum == freq + scale,
    ;
    sum >> scale
}

/// The units held by the blocks in the free lists of the first `n` size classes, by
/// their counts in `stamps`.
pub open spec fn stamped_units(stamps: Seq<u32>, n: int) -> int
    decreases n,
{
    if n <= 0 {
        0
    } else {
        stamped_units(stamps, n - 1) + stamps[n - 1] * index_units(n - 1)
    }
}

/// The bytes of the model memory in use: all of it but the free area, the gap
/// between the text and the units, and the free blocks.
pub open spec fn used_memory<RC>(p: Ppmd8<RC>) -> int {
    p.size - (p.hi_unit - p.lo_unit) - (p.units_start - p.text) - UNIT_SIZE * stamped_units(p.stamps@, PPMD_NUM_INDEXES as int)
}

/// The counts of free blocks agree below size class `k`, so the units they hold do.
proof fn lemma_stamped_units_prefix(s1: Seq<u32>, s2: Seq<u32>, k: int)
    requires
        forall|j: int| 0 <= j < k ==> #[trigger] s1[j] == s2[j],
    ensures
        stamped_units(s1, k) == stamped_units(s2, k),
    decreases k,
{
    if k > 0 {
        lemma_stamped_units_prefix(s1, s2, k - 1);
        assert(s1[k - 1] == s2[k - 1]);
    }
}

/// Setting the count of free blocks of size class `i` to `v` changes the units they
/// hold by the change of the count times the units of a block of that class.
proof fn lemma_stamped_units_update(stamps: Seq<u32>, n: int, i: int, v: u32)
    requires
        0 <= i < n <= stamps.len(),
    ensures
        stamped_units(stamps.update(i, v), n) == stamped_units(stamps, n) + (v - stamps[i]) * index_units(i),
    decreases n,
{
    let t = stamps.update(i, v);
    if n - 1 > i {
        lemma_stamped_units_update(stamps, n - 1, i, v);
        assert(t[n - 1] == stamps[n - 1]);
    } else {
        lemma_stamped_units_prefix(t, stamps, n - 1);
        let u = index_units(i);
        assert(v * u - stamps[i] * u == (v - stamps[i]) * u) by (nonlinear_arith);
    }
}

/// No free blocks hold no units.
proof fn lemma_stamped_units_zero(stamps: Seq<u32>, n: int)
    requires
        0 <= n <= stamps.len(),
        forall|i: int| 0 <= i < n ==> #[trigger] stamps[i] == 0,
    ensures
        stamped_units(stamps, n) == 0,
    decreases n,
{
    if n > 0 {
        lemma_stamped_units_zero(stamps, n - 1);
        assert(stamps[n - 1] == 0);
    }
}

/// A model that has just started uses the memory of its root context and the 256
/// states of that context: 129 units.
pub proof fn law_started_model_uses_the_root_only<RC>(p: Ppmd8<RC>)
    requires
        p.wf(),
        p.started(),
    ensures
        used_memory(p) == 129 * UNIT_SIZE,
{
    lemma_stamped_units_zero(p.stamps@, PPMD_NUM_INDEXES as int);
}

/// The memory in use counts the blocks in the free lists as free: taking a block
/// from the list of its size class adds the block's size to the memory in use, and
/// putting a block into that list again takes the size off.
pub proof fn law_used_memory_counts_free_blocks<RC>(
    a: Ppmd8<RC>,
    b: Ppmd8<RC>,
    c: Ppmd8<RC>,
    index: u32,
    taken: u32,
    node: u32,
)
    requires
        a.wf(),
        index < PPMD_NUM_INDEXES,
        a.stamps@[index as int] >= 1,
        node_removed(a, b, index, taken),
        same_areas(a, b),
        node_inserted(b, c, node, index),
        same_areas(b, c),
    ensures
        used_memory(b) == used_memory(a) + UNIT_SIZE * index_units(index as int),
        used_memory(c) == used_memory(a),
{
    let n = PPMD_NUM_INDEXES as int;
    let i = index as int;
    let sa = a.stamps@;
    let sb = b.stamps@;
    let u = index_units(i);
    lemma_stamped_units_update(sa, n, i, sa[i].wrapping_sub(1));
    assert(sa[i].wrapping_sub(1) == sa[i] - 1);
    assert((sa[i].wrapping_sub(1) - sa[i]) * u == -u) by (nonlinear_arith)
        requires
            sa[i].wrapping_sub(1) - sa[i] == -1,
    ;
    assert(sb[i] == sa[i] - 1);
    lemma_stamped_units_update(sb, n, i, sb[i].wrapping_add(1));
    assert(sb[i].wrapping_add(1) == sb[i] + 1);
    assert((sb[i].wrapping_add(1) - sb[i]) * u == u) by (nonlinear_arith)
        requires
            sb[i].wrapping_add(1) - sb[i] == 1,
    ;
    assert(stamped_units(b.stamps@, n) == stamped_units(sa, n) - u);
    assert(stamped_units(c.stamps@, n) == stamped_units(sa, n));
}

/// The frequency `f` scaled down by `scale` bits, rounding up./// The frequency `f` scaled down by `scale` bits, rounding up.
pub open spec fn scaled_freq(f: u8, scale: u32) -> u8 {
    if scale == 1 {
        ((f as int + 1) / 2) as u8
    } else {
        f
    }
}

/// The sum of the frequencies of the first `k` states from `s0` in the memory `m`.
pub open spec fn freq_sum(m: Seq<u8>, s0: int, k: int) -> int
    decreases k,
{
    if k <= 0 {
        0
    } else {
        freq_sum(m, s0, k - 1) + m[s0 + 6 * (k - 1) + 1]
    }
}

/// Whether a symbol of 0x40 or above is among the first `k` states from `s0`.
pub open spec fn has_high_symbol(m: Seq<u8>, s0: int, k: int) -> bool {
    exists|j: int| 0 <= j < k && #[trigger] m[s0 + 6 * j] >= 0x40
}

/// The escape frequency `e`, taken modulo 2^32, scaled down by `scale` bits, rounding
/// up, in 32 bits.
pub open spec fn escape_scaled(e: int, scale: u32) -> int {
    ((e % 0x1_0000_0000 + scale) % 0x1_0000_0000) / (if scale == 1 { 2int } else { 1int })
}

/// The `k` states from `s0` lie inside the memory, apart from the count, flags and
/// sum of their context `ctx`.
pub open spec fn states_apart(ctx: u32, s0: u32, k: int, len: nat) -> bool {
    &&& s0 + 6 * k <= len
    &&& ctx + 4 <= len
    &&& (ctx + 4 <= s0 || s0 + 6 * k <= ctx)
}

/// Whether byte `a` is the frequency of one of the first `i` states from `s0`.
pub open spec fn freq_written(s0: int, i: int, a: int) -> bool {
    s0 <= a < s0 + 6 * i && (a - s0) % 6 == 1
}

/// A sum of frequencies reads only the frequency bytes it sums.
pub(crate) proof fn lemma_freq_sum_frame(m1: Seq<u8>, m2: Seq<u8>, s0: int, k: int)
    requires
        forall|j: int| 0 <= j < k ==> #[trigger] m1[s0 + 6 * j + 1] == m2[s0 + 6 * j + 1],
    ensures
        freq_sum(m1, s0, k) == freq_sum(m2, s0, k),
    decreases k,
{
    if k > 0 {
        lemma_freq_sum_frame(m1, m2, s0, k - 1);
        assert(m1[s0 + 6 * (k - 1) + 1] == m2[s0 + 6 * (k - 1) + 1]);
    }
}

/// A sum of frequencies is the same over two runs of states whose frequencies agree.
pub(crate) proof fn lemma_freq_sum_moved(m1: Seq<u8>, s1: int, m2: Seq<u8>, s2: int, k: int)
    requires
        forall|j: int| 0 <= j < k ==> #[trigger] m1[s1 + 6 * j + 1] == m2[s2 + 6 * j + 1],
    ensures
        freq_sum(m1, s1, k) == freq_sum(m2, s2, k),
    decreases k,
{
    if k > 0 {
        lemma_freq_sum_moved(m1, s1, m2, s2, k - 1);
        assert(m1[s1 + 6 * (k - 1) + 1] == m2[s2 + 6 * (k - 1) + 1]);
    }
}

/// Whether a high symbol is among a run of states is the same over two runs whose
/// symbols agree.
proof fn lemma_high_symbol_moved(m1: Seq<u8>, s1: int, m2: Seq<u8>, s2: int, k: int)
    requires
        forall|j: int| 0 <= j < k ==> #[trigger] m1[s1 + 6 * j] == m2[s2 + 6 * j],
    ensures
        has_high_symbol(m1, s1, k) == has_high_symbol(m2, s2, k),
{
    if has_high_symbol(m1, s1, k) {
        let j = choose|j: int| 0 <= j < k && #[trigger] m1[s1 + 6 * j] >= 0x40;
        assert(m2[s2 + 6 * j] >= 0x40);
    }
    if has_high_symbol(m2, s2, k) {
        let j = choose|j: int| 0 <= j < k && #[trigger] m2[s2 + 6 * j] >= 0x40;
        assert(m1[s1 + 6 * j] == m2[s2 + 6 * j]);
    }
}

/// The context `ctx`, the block of `old_nu` units its states are in, and the block
/// `refresh` moves them to all lie inside the memory of `p`, the context apart from
/// both blocks and a moved block apart from the start of the old one.
pub open spec fn refresh_apart<RC>(p: Ppmd8<RC>, ctx: u32, old_nu: u32) -> bool {
    let m0 = p.mem.bytes();
    let len = m0.len();
    let ns = m0[ctx as int] as int;
    let states = le32(m0, ctx + 4);
    let new_nu = ((ns + 2) / 2) as u32;
    let blk = old_block_bytes(p, old_nu, new_nu);
    let r = shrink_target(p, states as u32, old_nu, new_nu) as int;
    let nb = new_nu * 12;
    &&& 1 <= old_nu <= 128
    &&& ctx + 8 <= len
    &&& states + blk <= len
    &&& r + nb <= len
    &&& (shrink_moves(p, old_nu, new_nu) ==> (r + nb <= states || states + 12 <= r))
    &&& (ctx + 8 <= states || states + blk <= ctx)
    &&& (ctx + 8 <= r || r + nb <= ctx)
}

/// Adding a symbol's high-bit marker to the collected flags keeps them below 0x200,
/// with bit 8 set when it was or the symbol is 0x40 or above.
proof fn lemma_flags_or(f: u32, sym: u32, h: u32)
    by (bit_vector)
    requires
        f < 0x200,
        sym < 256,
        h == sym + 0xC0,
    ensures
        (f | h) < 0x200,
        ((f | h) >= 0x100) == (f >= 0x100 || sym >= 0x40),
{
}

/// The symbol, frequency and successor of the state at `s` in the memory `m`.
pub open spec fn state_at(m: Seq<u8>, s: int) -> (u8, u8, int) {
    (m[s], m[s + 1], le32(m, s + 2))
}

/// The size of a state in bytes.
pub const STATE_SIZE: u32 = 6;

impl<RC> Ppmd8<RC> {
    // Fields of contexts and states in the model memory.

    pub fn num_stats(&self, c: u32) -> (v: u32)
        ensures
            v == self.mem.spec_rd8(c),
            v < 256,
    {
        self.mem.rd8(c) as u32
    }

    pub fn set_num_stats(&mut self, c: u32, v: u8)
        requires
            old(self).wf(),
        ensures
            model_frame(*old(self), *final(self)),
            mem_only(*old(self), *final(self)),
            fits(c, 1, old(self).mem.bytes().len()) ==> final(self).mem.bytes() == old(self).mem.bytes().update(c as int, v),
            !fits(c, 1, old(self).mem.bytes().len()) ==> final(self).mem.bytes() == old(self).mem.bytes(),
    {
        self.mem.wr8(c, v);
    }

    pub fn flags(&self, c: u32) -> (v: u32)
        ensures
            v == self.mem.spec_rd8(c.wrapping_add(1)),
            v < 256,
    {
        self.mem.rd8(c.wrapping_add(1)) as u32
    }

    pub fn set_flags(&mut self, c: u32, v: u8)
        requires
            old(self).wf(),
        ensures
            model_frame(*old(self), *final(self)),
            mem_only(*old(self), *final(self)),
            fits(c.wrapping_add(1), 1, old(self).mem.bytes().len()) ==> final(self).mem.bytes() == old(self).mem.bytes().update(c.wrapping_add(1) as int, v),
            !fits(c.wrapping_add(1), 1, old(self).mem.bytes().len()) ==> final(self).mem.bytes() == old(self).mem.bytes(),
    {
        self.mem.wr8(c.wrapping_add(1), v);
    }

    pub fn summ_freq(&self, c: u32) -> (v: u32)
        ensures
            v == self.mem.spec_rd16(c.wrapping_add(2)),
            v < 0x1_0000,
    {
        self.mem.rd16(c.wrapping_add(2)) as u32
    }

    pub fn set_summ_freq(&mut self, c: u32, v: u16)
        requires
            old(self).wf(),
        ensures
            model_frame(*old(self), *final(self)),
            mem_only(*old(self), *final(self)),
            fits(c.wrapping_add(2), 2, old(self).mem.bytes().len()) ==> le16(final(self).mem.bytes(), c.wrapping_add(2) as int) == v as int
                && same_outside(old(self).mem.bytes(), final(self).mem.bytes(), c.wrapping_add(2) as int, 2),
            !fits(c.wrapping_add(2), 2, old(self).mem.bytes().len()) ==> final(self).mem.bytes() == old(self).mem.bytes(),
    {
        self.mem.wr16(c.wrapping_add(2), v);
    }

    pub fn stats(&self, c: u32) -> (v: u32)
        ensures
            v == self.mem.spec_rd32(c.wrapping_add(4)),
    {
        self.mem.rd32(c.wrapping_add(4))
    }

    pub fn set_stats(&mut self, c: u32, v: u32)
        requires
            old(self).wf(),
        ensures
            model_frame(*old(self), *final(self)),
            mem_only(*old(self), *final(self)),
            fits(c.wrapping_add(4), 4, old(self).mem.bytes().len()) ==> le32(final(self).mem.bytes(), c.wrapping_add(4) as int) == v as int
                && same_outside(old(self).mem.bytes(), final(self).mem.bytes(), c.wrapping_add(4) as int, 4),
            !fits(c.wrapping_add(4), 4, old(self).mem.bytes().len()) ==> final(self).mem.bytes() == old(self).mem.bytes(),
    {
        self.mem.wr32(c.wrapping_add(4), v);
    }

    pub fn suffix(&self, c: u32) -> (v: u32)
        ensures
            v == self.mem.spec_rd32(c.wrapping_add(8)),
    {
        self.mem.rd32(c.wrapping_add(8))
    }

    pub fn set_suffix(&mut self, c: u32, v: u32)
        requires
            old(self).wf(),
        ensures
            model_frame(*old(self), *final(self)),
            mem_only(*old(self), *final(self)),
            fits(c.wrapping_add(8), 4, old(self).mem.bytes().len()) ==> le32(final(self).mem.bytes(), c.wrapping_add(8) as int) == v as int
                && same_outside(old(self).mem.bytes(), final(self).mem.bytes(), c.wrapping_add(8) as int, 4),
            !fits(c.wrapping_add(8), 4, old(self).mem.bytes().len()) ==> final(self).mem.bytes() == old(self).mem.bytes(),
    {
        self.mem.wr32(c.wrapping_add(8), v);
    }

    /// The one state of a binary context lies inside the context, from its third byte.
    pub fn single_state(&self, c: u32) -> (s: u32)
        ensures
            s == c.wrapping_add(2),
    {
        c.wrapping_add(2)
    }

    pub fn sym(&self, s: u32) -> (v: u32)
        ensures
            v == self.mem.spec_rd8(s),
            v < 256,
    {
        self.mem.rd8(s) as u32
    }

    pub fn set_sym(&mut self, s: u32, v: u8)
        requires
            old(self).wf(),
        ensures
            model_frame(*old(self), *final(self)),
            mem_only(*old(self), *final(self)),
            fits(s, 1, old(self).mem.bytes().len()) ==> final(self).mem.bytes() == old(self).mem.bytes().update(s as int, v),
            !fits(s, 1, old(self).mem.bytes().len()) ==> final(self).mem.bytes() == old(self).mem.bytes(),
    {
        self.mem.wr8(s, v);
    }

    pub fn freq(&self, s: u32) -> (v: u32)
        ensures
            v == self.mem.spec_rd8(s.wrapping_add(1)),
            v < 256,
    {
        self.mem.rd8(s.wrapping_add(1)) as u32
    }

    pub fn set_freq(&mut self, s: u32, v: u8)
        requires
            old(self).wf(),
        ensures
            model_frame(*old(self), *final(self)),
            mem_only(*old(self), *final(self)),
            fits(s.wrapping_add(1), 1, old(self).mem.bytes().len()) ==> final(self).mem.bytes() == old(self).mem.bytes().update(s.wrapping_add(1) as int, v),
            !fits(s.wrapping_add(1), 1, old(self).mem.bytes().len()) ==> final(self).mem.bytes() == old(self).mem.bytes(),
    {
        self.mem.wr8(s.wrapping_add(1), v);
    }

    pub fn successor(&self, s: u32) -> (v: u32)
        ensures
            v == self.mem.spec_rd32(s.wrapping_add(2)),
    {
        self.mem.rd32(s.wrapping_add(2))
    }

    pub fn set_successor(&mut self, s: u32, v: u32)
        requires
            old(self).wf(),
        ensures
            model_frame(*old(self), *final(self)),
            mem_only(*old(self), *final(self)),
            fits(s.wrapping_add(2), 4, old(self).mem.bytes().len()) ==> le32(final(self).mem.bytes(), s.wrapping_add(2) as int) == v as int
                && same_outside(old(self).mem.bytes(), final(self).mem.bytes(), s.wrapping_add(2) as int, 4),
            !fits(s.wrapping_add(2), 4, old(self).mem.bytes().len()) ==> final(self).mem.bytes() == old(self).mem.bytes(),
    {
        self.mem.wr32(s.wrapping_add(2), v);
    }

    /// Whether `off` points at a context, rather than into the text or nowhere.
    pub fn is_real_context(&self, off: u32) -> (b: bool)
        ensures
            b == (off >= self.units_start),
    {
        off >= self.units_start
    }

    /// Copies the state at `src` over the state at `dst`.
    pub fn copy_state(&mut self, src: u32, dst: u32)
        requires
            old(self).wf(),
        ensures
            model_frame(*old(self), *final(self)),
            mem_only(*old(self), *final(self)),
            ({
                let m = old(self).mem.bytes();
                fits(src, 6, m.len()) && fits(dst, 6, m.len()) ==> final(self).mem.bytes() == m.subrange(0, dst as int)
                    + m.subrange(src as int, src + 6) + m.subrange(dst + 6, m.len() as int)
            }),
            !(fits(src, 6, old(self).mem.bytes().len()) && fits(dst, 6, old(self).mem.bytes().len()))
                ==> final(self).mem.bytes() == old(self).mem.bytes(),
    {
        self.mem.copy(src, dst, STATE_SIZE);
    }

    /// Swaps the states at `a` and `b`.
    pub fn swap_states(&mut self, a: u32, b: u32)
        requires
            old(self).wf(),
        ensures
            model_frame(*old(self), *final(self)),
            mem_only(*old(self), *final(self)),
            ({
                let m0 = old(self).mem.bytes();
                let m = final(self).mem.bytes();
                a + 6 <= m0.len() && b + 6 <= m0.len() && (a + 6 <= b || b + 6 <= a) ==> {
                    &&& state_at(m, a as int) == state_at(m0, b as int)
                    &&& state_at(m, b as int) == state_at(m0, a as int)
                    &&& forall|x: int| 0 <= x < m0.len() && !(a <= x < a + 6) && !(b <= x < b + 6) ==> #[trigger] m[x] == m0[x]
                }
            }),
            ({
                let m0 = old(self).mem.bytes();
                let m = final(self).mem.bytes();
                a == b && a + 6 <= m0.len() ==> {
                    &&& m[a as int] == m0[a as int]
                    &&& m[a + 1] == m0[a + 1]
                    &&& forall|x: int| 0 <= x < m0.len() && !(a + 2 <= x < a + 6) ==> #[trigger] m[x] == m0[x]
                }
            }),
    {
        let ghost m0 = self.mem.bytes();
        let sa = self.sym(a);
        let fa = self.freq(a);
        let ca = self.successor(a);
        self.copy_state(b, a);
        let ghost m1 = self.mem.bytes();
        self.set_sym(b, sa as u8);
        let ghost m2 = self.mem.bytes();
        self.set_freq(b, fa as u8);
        let ghost m3 = self.mem.bytes();
        self.set_successor(b, ca);
        proof {
            let m = self.mem.bytes();
            if a == b && a + 6 <= m0.len() {
                let ai = a as int;
                assert(a.wrapping_add(1) as int == ai + 1);
                assert(a.wrapping_add(2) as int == ai + 2);
                assert(m1 =~= m0) by {
                    assert forall|x: int| 0 <= x < m0.len() implies m1[x] == m0[x] by {
                        if x < ai {
                            assert(m1[x] == m0.subrange(0, ai)[x]);
                        } else if x < ai + 6 {
                            assert(m1[x] == m0.subrange(ai, ai + 6)[x - ai]);
                        } else {
                            assert(m1[x] == m0.subrange(ai + 6, m0.len() as int)[x - ai - 6]);
                        }
                    }
                }
                assert(m2 =~= m1);
                assert(m3 =~= m2);
                assert forall|x: int| 0 <= x < m0.len() && !(ai + 2 <= x < ai + 6) implies #[trigger] m[x] == m0[x] by {
                    assert(m[x] == m3[x]);
                }
            }
            if a + 6 <= m0.len() && b + 6 <= m0.len() && (a + 6 <= b || b + 6 <= a) {
                let ai = a as int;
                let bi = b as int;
                assert(a.wrapping_add(1) as int == ai + 1);
                assert(a.wrapping_add(2) as int == ai + 2);
                assert(b.wrapping_add(1) as int == bi + 1);
                assert(b.wrapping_add(2) as int == bi + 2);
                assert(m1 == m0.subrange(0, ai) + m0.subrange(bi, bi + 6) + m0.subrange(ai + 6, m0.len() as int));
                assert forall|x: int| 0 <= x < m0.len() && !(bi <= x < bi + 6) implies #[trigger] m[x] == m1[x] by {
                    assert(m[x] == m3[x]);
                    assert(m3[x] == m2[x]);
                    assert(m2[x] == m1[x]);
                }
                assert forall|y: int| 0 <= y < 6 implies #[trigger] m1[ai + y] == m0[bi + y] by {
                    assert(m1[ai + y] == m0.subrange(bi, bi + 6)[y]);
                }
                assert forall|x: int| 0 <= x < m0.len() && !(ai <= x < ai + 6) && !(bi <= x < bi + 6) implies #[trigger] m1[x] == m0[x] by {
                    if x < ai {
                        assert(m1[x] == m0.subrange(0, ai)[x]);
                    } else {
                        assert(m1[x] == m0.subrange(ai + 6, m0.len() as int)[x - ai - 6]);
                    }
                }
                assert(m[ai] == m0[bi] && m[ai + 1] == m0[bi + 1]);
                assert(m[ai + 2] == m0[bi + 2] && m[ai + 3] == m0[bi + 3] && m[ai + 4] == m0[bi + 4] && m[ai + 5] == m0[bi + 5]);
                assert(m[bi] == m3[bi]);
                assert(m3[bi] == m2[bi]);
                assert(m2[bi] == m0[ai]) by {
                    assert(m1[ai] == m0[bi]);
                }
                assert(m[bi + 1] == m3[bi + 1]);
                assert(sa == m0[ai]);
                assert(fa == m0[ai + 1]);
                assert(ca as int == le32(m0, ai + 2));
            }
        }
    }

    /// Scales the frequencies of the `n + 1` states from `s0` down by `scale` bits and
    /// recounts the sum and flags of their context `ctx`. The new sum is that of the
    /// new frequencies plus the scaled escape frequency: the old sum less the old
    /// frequencies of these states, so that the frequencies of states dropped before
    /// count as escapes. The flags keep the bit for a high previous symbol (and the
    /// rescaled bit when scaling) and get the bit for a high symbol among the states.
    pub fn scale_states(&mut self, ctx: u32, s0: u32, n: u32, scale: u32)
        requires
            old(self).wf(),
            scale <= 1,
            1 <= n <= 255,
        ensures
            model_frame(*old(self), *final(self)),
            mem_only(*old(self), *final(self)),
            ({
                let m0 = old(self).mem.bytes();
                let m = final(self).mem.bytes();
                let k = n + 1;
                states_apart(ctx, s0, k, m0.len()) ==> {
                    &&& forall|j: int| 0 <= j < k ==> #[trigger] m[s0 + 6 * j + 1] == scaled_freq(m0[s0 + 6 * j + 1], scale)
                    &&& forall|j: int| 0 <= j < k ==> #[trigger] m[s0 + 6 * j] == m0[s0 + 6 * j]
                    &&& le16(m, ctx + 2) == (freq_sum(m, s0 as int, k) + escape_scaled(
                        le16(m0, ctx + 2) - freq_sum(m0, s0 as int, k),
                        scale,
                    )) % 0x1_0000
                    &&& m[ctx + 1] == (m0[ctx + 1] & (16 + 4 * scale) as u8) + (if has_high_symbol(m0, s0 as int, k) {
                        8int
                    } else {
                        0int
                    })
                    &&& forall|a: int|
                        0 <= a < m0.len() && !freq_written(s0 as int, k, a) && !(ctx + 1 <= a < ctx + 4) ==> #[trigger] m[a]
                            == m0[a]
                }
            }),
    {
        let ghost m0 = self.mem.bytes();
        let ghost k = n + 1;
        let ghost apart = states_apart(ctx, s0, k as int, m0.len());
        let summ0 = self.summ_freq(ctx);
        let mut esc_freq = summ0;
        let mut sum_freq: u32 = 0;
        let mut flags: u32 = 0;
        let mut i: u32 = 0;
        while i <= n
            invariant
                model_frame(*old(self), *self),
                mem_only(*old(self), *self),
                m0 == old(self).mem.bytes(),
                k == n + 1,
                1 <= n <= 255,
                scale <= 1,
                i <= n + 1,
                sum_freq <= 256 * i,
                flags < 0x200,
                apart == states_apart(ctx, s0, k as int, m0.len()),
                apart ==> {
                    let m = self.mem.bytes();
                    &&& summ0 == le16(m0, ctx + 2)
                    &&& forall|j: int| 0 <= j < i ==> #[trigger] m[s0 + 6 * j + 1] == scaled_freq(m0[s0 + 6 * j + 1], scale)
                    &&& forall|a: int| 0 <= a < m0.len() && !freq_written(s0 as int, i as int, a) ==> #[trigger] m[a] == m0[a]
                    &&& sum_freq == freq_sum(m, s0 as int, i as int)
                    &&& esc_freq as int == (summ0 - freq_sum(m0, s0 as int, i as int)) % 0x1_0000_0000
                    &&& (flags >= 0x100) == has_high_symbol(m0, s0 as int, i as int)
                },
            decreases n + 1 - i,
        {
            let s = s0.wrapping_add(i * STATE_SIZE);
            let ghost mb = self.mem.bytes();
            let f0 = self.freq(s);
            let ghost e0 = esc_freq;
            esc_freq = esc_freq.wrapping_sub(f0);
            let f = scale_freq(f0, scale);
            sum_freq = sum_freq + f;
            self.set_freq(s, f as u8);
            let sym = self.sym(s);
            let h = hi_bits_prepare(sym);
            proof {
                lemma_flags_or(flags, sym, h);
                if apart {
                    let m = self.mem.bytes();
                    let ii = i as int;
                    assert(s as int == s0 + 6 * ii);
                    assert(s.wrapping_add(1) as int == s0 + 6 * ii + 1);
                    assert(f0 == m0[s0 + 6 * ii + 1]) by {
                        assert(!freq_written(s0 as int, ii, s0 + 6 * ii + 1));
                    }
                    assert(sym == m0[s0 + 6 * ii]) by {
                        assert(!freq_written(s0 as int, ii + 1, s0 + 6 * ii));
                        assert(m[s0 + 6 * ii] == mb[s0 + 6 * ii]);
                        assert(!freq_written(s0 as int, ii, s0 + 6 * ii));
                    }
                    assert forall|j: int| 0 <= j < ii + 1 implies #[trigger] m[s0 + 6 * j + 1] == scaled_freq(m0[s0 + 6 * j + 1], scale) by {
                        if j < ii {
                            assert(m[s0 + 6 * j + 1] == mb[s0 + 6 * j + 1]);
                        }
                    }
                    assert forall|a: int| 0 <= a < m0.len() && !freq_written(s0 as int, ii + 1, a) implies #[trigger] m[a] == m0[a] by {
                        assert(a != s0 + 6 * ii + 1);
                        assert(!freq_written(s0 as int, ii, a));
                    }
                    lemma_freq_sum_frame(mb, m, s0 as int, ii);
                    assert(freq_sum(m, s0 as int, ii + 1) == freq_sum(m, s0 as int, ii) + m[s0 + 6 * ii + 1]);
                    assert(freq_sum(m0, s0 as int, ii + 1) == freq_sum(m0, s0 as int, ii) + m0[s0 + 6 * ii + 1]);
                    lemma_sub_mod_noop(summ0 - freq_sum(m0, s0 as int, ii), f0 as int, 0x1_0000_0000);
                    assert(has_high_symbol(m0, s0 as int, ii + 1) == (has_high_symbol(m0, s0 as int, ii) || m0[s0 + 6 * ii] >= 0x40));
                }
            }
            flags = flags | h;
            i = i + 1;
        }
        let raised = esc_freq.wrapping_add(scale);
        let esc = if scale == 1 {
            raised / 2
        } else {
            raised
        };
        let summ = sum_freq.wrapping_add(esc);
        let ghost ml = self.mem.bytes();
        self.set_summ_freq(ctx, (summ % 0x1_0000) as u16);
        let ghost ms = self.mem.bytes();
        let mask: u32 = FLAG_PREV_HIGH as u32 + FLAG_RESCALED as u32 * scale;
        let k0 = self.flags(ctx);
        let keep = k0 & mask;
        assert(k0 & mask <= mask) by (bit_vector);
        let high = hi_bits_convert_3(flags);
        let new_flags = keep + high;
        self.set_flags(ctx, new_flags as u8);
        proof {
            if apart {
                let m = self.mem.bytes();
                let kk = k as int;
                assert(ctx.wrapping_add(2) as int == ctx + 2);
                assert(ctx.wrapping_add(1) as int == ctx + 1);
                assert(m[ctx + 2] == ms[ctx + 2] && m[ctx + 3] == ms[ctx + 3]);
                assert forall|j: int| 0 <= j < kk implies #[trigger] m[s0 + 6 * j + 1] == scaled_freq(m0[s0 + 6 * j + 1], scale) by {
                    assert(ms[s0 + 6 * j + 1] == ml[s0 + 6 * j + 1]);
                }
                assert forall|j: int| 0 <= j < kk implies #[trigger] m[s0 + 6 * j] == m0[s0 + 6 * j] by {
                    assert(ms[s0 + 6 * j] == ml[s0 + 6 * j]);
                    assert(!freq_written(s0 as int, kk, s0 + 6 * j));
                }
                assert forall|j: int| 0 <= j < kk implies #[trigger] m[s0 + 6 * j + 1] == ml[s0 + 6 * j + 1] by {
                    assert(ms[s0 + 6 * j + 1] == ml[s0 + 6 * j + 1]);
                }
                lemma_freq_sum_frame(ml, m, s0 as int, kk);
                assert(k0 == m0[ctx + 1]) by {
                    assert(!freq_written(s0 as int, kk, ctx + 1));
                    assert(ms[ctx + 1] == ml[ctx + 1]);
                }
                assert(escape_scaled(summ0 - freq_sum(m0, s0 as int, kk), scale) == esc as int);
                assert forall|a: int|
                    0 <= a < m0.len() && !freq_written(s0 as int, kk, a) && !(ctx + 1 <= a < ctx + 4) implies #[trigger] m[a]
                        == m0[a] by {
                    assert(ms[a] == ml[a]);
                }
            }
        }
    }

    /// Shrinks the states of `ctx` into `(num_stats + 2) / 2` units after some were
    /// removed, then scales their frequencies down by `scale` bits (or by one where the
    /// sum has reached 2^15) and recounts its sum and flags, the removed states' old
    /// frequencies going to its escape frequency.
    ///
    /// Where the context, its old block of `old_nu` units and the block the states
    /// move to lie apart inside the memory, the context points at the new block, which
    /// holds its states in their order with their symbols and successors and the
    /// scaled frequencies, and its sum and flags are those `scale_states` gives.
    pub fn refresh(&mut self, ctx: u32, old_nu: u32, scale: u32)
        requires
            old(self).wf(),
            scale <= 1,
        ensures
            model_frame(*old(self), *final(self)),
            alloc_frame(*old(self), *final(self)),
            final(self).lo_unit == old(self).lo_unit,
            final(self).hi_unit == old(self).hi_unit,
            ({
                let m0 = old(self).mem.bytes();
                let m = final(self).mem.bytes();
                let ns = m0[ctx as int] as int;
                let states = le32(m0, ctx + 4);
                let k = if ns == 0 { 2int } else { ns + 1 };
                let r = shrink_target(*old(self), states as u32, old_nu, ((ns + 2) / 2) as u32) as int;
                let sc: u32 = if scale == 1 || le16(m0, ctx + 2) >= 0x8000 { 1 } else { 0 };
                refresh_apart(*old(self), ctx, old_nu) ==> {
                    &&& m[ctx as int] == m0[ctx as int]
                    &&& le32(m, ctx + 4) == r
                    &&& forall|j: int| 0 <= j < k ==> #[trigger] m[r + 6 * j] == m0[states + 6 * j]
                    &&& forall|j: int| 0 <= j < k ==> #[trigger] m[r + 6 * j + 1] == scaled_freq(m0[states + 6 * j + 1], sc)
                    &&& forall|j: int| 0 <= j < k ==> #[trigger] le32(m, r + 6 * j + 2) == le32(m0, states + 6 * j + 2)
                    &&& le16(m, ctx + 2) == (freq_sum(m, r, k) + escape_scaled(le16(m0, ctx + 2) - freq_sum(m0, states, k), sc))
                        % 0x1_0000
                    &&& m[ctx + 1] == (m0[ctx + 1] & (16 + 4 * sc) as u8) + (if has_high_symbol(m0, states, k) {
                        8int
                    } else {
                        0int
                    })
                }
            }),
    {
        let ghost m0 = self.mem.bytes();
        let ghost p0 = *self;
        let ghost apart = refresh_apart(*self, ctx, old_nu);
        let num_stats = self.num_stats(ctx);
        let states = self.stats(ctx);
        let new_nu = (num_stats + 2) / 2;
        let ghost kk: int = if num_stats == 0 { 2int } else { num_stats + 1 };
        proof {
            if apart {
                assert(ctx.wrapping_add(4) as int == ctx + 4);
                assert(num_stats == m0[ctx as int]);
                assert(states as int == le32(m0, ctx + 4));
            }
        }
        let s0 = self.shrink_units(states, old_nu, new_nu);
        let ghost m1 = self.mem.bytes();
        self.set_stats(ctx, s0);
        let ghost m2 = self.mem.bytes();
        let scale: u32 = if scale == 1 || self.summ_freq(ctx) >= 0x8000 {
            1
        } else {
            0
        };
        let n = if num_stats == 0 {
            1
        } else {
            num_stats
        };
        proof {
            if apart {
                let r = s0 as int;
                let nb = new_nu * 12;
                assert(6 * kk <= nb);
                assert(forall|x: int| ctx <= x < ctx + 8 ==> #[trigger] m1[x] == m0[x]);
                assert(forall|j: int| 0 <= j < nb ==> #[trigger] m1[r + j] == m0[states + j]);
                assert(ctx.wrapping_add(4) as int == ctx + 4);
                assert(ctx.wrapping_add(2) as int == ctx + 2);
                assert(forall|j: int| 0 <= j < nb ==> #[trigger] m2[r + j] == m1[r + j]);
                assert(m2[ctx + 2] == m1[ctx + 2] && m2[ctx + 3] == m1[ctx + 3] && m2[ctx as int] == m1[ctx as int]);
                assert(m2[ctx + 1] == m1[ctx + 1]);
                assert(m1[ctx + 2] == m0[ctx + 2] && m1[ctx + 3] == m0[ctx + 3]);
                assert(le16(m2, ctx + 2) == le16(m0, ctx + 2));
                assert(states_apart(ctx, s0, n + 1, m0.len()));
            }
        }
        self.scale_states(ctx, s0, n, scale);
        proof {
            if apart {
                let m = self.mem.bytes();
                let r = s0 as int;
                let nb = new_nu * 12;
                assert(forall|j: int| 0 <= j < nb ==> #[trigger] m2[r + j] == m0[states + j]) by {
                    assert forall|j: int| 0 <= j < nb implies #[trigger] m2[r + j] == m0[states + j] by {
                        assert(m2[r + j] == m1[r + j]);
                        assert(m1[r + j] == m0[states + j]);
                    }
                }
                assert forall|j: int| 0 <= j < kk implies #[trigger] m[r + 6 * j] == m0[states + 6 * j] by {
                    assert(m2[r + 6 * j] == m0[states + 6 * j]);
                }
                assert forall|j: int| 0 <= j < kk implies #[trigger] m[r + 6 * j + 1] == scaled_freq(m0[states + 6 * j + 1], scale) by {
                    assert(m2[r + (6 * j + 1)] == m0[states + (6 * j + 1)]);
                }
                assert forall|j: int| 0 <= j < kk implies #[trigger] le32(m, r + 6 * j + 2) == le32(m0, states + 6 * j + 2) by {
                    assert forall|b: int| 2 <= b < 6 implies #[trigger] m[r + 6 * j + b] == m0[states + 6 * j + b] by {
                        assert(!freq_written(r, kk, r + 6 * j + b));
                        assert(m2[r + (6 * j + b)] == m0[states + (6 * j + b)]);
                    }
                    assert(m[r + 6 * j + 2] == m0[states + 6 * j + 2]);
                    assert(m[r + 6 * j + 3] == m0[states + 6 * j + 3]);
                    assert(m[r + 6 * j + 4] == m0[states + 6 * j + 4]);
                    assert(m[r + 6 * j + 5] == m0[states + 6 * j + 5]);
                }
                assert(!freq_written(r, kk, ctx as int));
                assert(m[ctx as int] == m0[ctx as int]);
                assert forall|b: int| 4 <= b < 8 implies #[trigger] m[ctx + b] == m2[ctx + b] by {
                    assert(!freq_written(r, kk, ctx + b));
                }
                assert(m[ctx + 4] == m2[ctx + 4] && m[ctx + 5] == m2[ctx + 5] && m[ctx + 6] == m2[ctx + 6] && m[ctx + 7]
                    == m2[ctx + 7]);
                assert forall|j: int| 0 <= j < kk implies #[trigger] m2[r + 6 * j + 1] == m0[states + 6 * j + 1] by {
                    assert(m2[r + (6 * j + 1)] == m0[states + (6 * j + 1)]);
                }
                lemma_freq_sum_moved(m2, r, m0, states as int, kk);
                lemma_high_symbol_moved(m2, r, m0, states as int, kk);
            }
        }
    }

    /// Prunes the context tree below `ctx`, a context of order `order`: successors at
    /// the model's largest order become empty, states whose successor is no context
    /// are dropped (at order 0 they stay, with no successor), contexts left without
    /// states are freed, and a block of states close to the start of the units area
    /// moves into a free block further up. Returns `ctx`, or zero where it was freed;
    /// its unit then heads the list of single units, or the units area starts above it.
    pub fn cut_off(&mut self, ctx: u32, order: u32) -> (r: u32)
        requires
            old(self).wf(),
            order <= old(self).max_order,
        ensures
            model_frame(*old(self), *final(self)),
            alloc_frame(*old(self), *final(self)),
            r == ctx || r == 0,
            final(self).lo_unit == old(self).lo_unit,
            final(self).hi_unit == old(self).hi_unit,
            r != ctx ==> final(self).free_list@[0] == ctx || final(self).units_start == ctx.wrapping_add(UNIT_SIZE),
            ({
                let binary = old(self).mem.spec_rd8(ctx) == 0;
                let leads_on = old(self).mem.spec_rd32(ctx.wrapping_add(2).wrapping_add(2)) >= old(self).units_start;
                &&& binary && !leads_on ==> r == 0
                &&& binary && leads_on && order <= 9 ==> r == ctx
                &&& binary && leads_on && order == old(self).max_order && order > 9 ==> r == 0
                &&& !binary && order == 0 ==> r == ctx
                &&& !binary && order != 0 && states_stay(*old(self), ctx) && states_lead_nowhere(*old(self), ctx) ==> r == 0
            }),
            ({
                let m = old(self).mem;
                let succ = m.spec_rd32(ctx.wrapping_add(2).wrapping_add(2));
                let slot = fits(ctx.wrapping_add(4), 4, m.bytes().len());
                &&& m.spec_rd8(ctx) == 0 && succ >= old(self).units_start && order == old(self).max_order && order <= 9 && slot
                    ==> final(self).mem.spec_rd32(ctx.wrapping_add(4)) == 0
                &&& m.spec_rd8(ctx) == 0 && succ >= old(self).units_start && order < old(self).max_order && order + 1 <= 9
                    && m.spec_rd8(succ) == 0 && m.spec_rd32(succ.wrapping_add(2).wrapping_add(2)) >= old(self).units_start && slot
                    ==> final(self).mem.spec_rd32(ctx.wrapping_add(4)) == succ
            }),
            ({
                let m0 = old(self).mem.bytes();
                let m = final(self).mem.bytes();
                let stats = old(self).mem.spec_rd32(ctx.wrapping_add(4)) as int;
                let n = old(self).mem.spec_rd8(ctx) as int + 1;
                order == 0 && old(self).mem.spec_rd8(ctx) != 0 && context_states_apart(*old(self), ctx) && states_stay(*old(self), ctx)
                    && states_lead_nowhere(*old(self), ctx) ==> {
                    &&& r == ctx
                    &&& m.len() == m0.len()
                    &&& forall|j: int| 0 <= j < n ==> #[trigger] state_at(m, stats + 6 * j) == (m0[stats + 6 * j], m0[stats + 6 * j + 1], 0int)
                    &&& forall|x: int| 0 <= x < m0.len() && !(stats <= x < stats + 6 * n) ==> #[trigger] m[x] == m0[x]
                }
            }),
        decreases old(self).max_order - order,
    {
        let mut ns: i32 = self.num_stats(ctx) as i32;
        if ns == 0 {
            let s = self.single_state(ctx);
            let mut successor = self.successor(s);
            if self.is_real_context(successor) {
                if order < self.max_order {
                    successor = self.cut_off(successor, order + 1);
                } else {
                    successor = 0;
                }
                self.set_successor(s, successor);
                if successor != 0 || order <= 9 {
                    return ctx;
                }
            }
            self.special_free_unit(ctx);
            return 0;
        }
        let nsu = ns as u32;
        let t: u32 = nsu + 2;
        let nu = t >> 1;
        assert(1 <= nu <= 128) by (bit_vector)
            requires
                3 <= t <= 257,
                nu == t >> 1,
        ;
        let index = self.units2index[(nu - 1) as usize] as u32;
        let stats_offset = self.stats(ctx);
        let mut stats = stats_offset;
        if stats.wrapping_sub(self.units_start) <= (1u32 << 14) && stats_offset <= self.free_list[index as usize] {
            let ptr = self.remove_node(index);
            self.set_stats(ctx, ptr);
            self.mem.copy(stats, ptr, nu * UNIT_SIZE);
            if stats != self.units_start {
                self.insert_node(stats, index);
            } else {
                let n = self.i2u(index);
                self.units_start = self.units_start.wrapping_add(n * UNIT_SIZE);
            }
            stats = ptr;
        }
        let ns0 = ns;
        let mut k: i32 = ns0;
        let ghost nowhere = order != 0 && states_stay(*old(self), ctx) && states_lead_nowhere(*old(self), ctx);
        let ghost nowhere0 = order == 0 && old(self).mem.spec_rd8(ctx) != 0 && context_states_apart(*old(self), ctx) && states_stay(
            *old(self),
            ctx,
        ) && states_lead_nowhere(*old(self), ctx);
        let ghost m0 = old(self).mem.bytes();
        let ghost base = old(self).mem.spec_rd32(ctx.wrapping_add(4)) as int;
        proof {
            if nowhere || nowhere0 {
                assert(*self == *old(self));
                assert(stats == old(self).mem.spec_rd32(ctx.wrapping_add(4)));
            }
        }
        while k >= 0
            invariant
                model_frame(*old(self), *self),
                alloc_frame(*old(self), *self),
                self.lo_unit == old(self).lo_unit,
                self.hi_unit == old(self).hi_unit,
                order <= self.max_order,
                -1 <= k <= ns <= ns0 <= 255,
                ns0 == old(self).mem.spec_rd8(ctx),
                nowhere == (order != 0 && states_stay(*old(self), ctx) && states_lead_nowhere(*old(self), ctx)),
                nowhere ==> ns == k && *self == *old(self) && stats == old(self).mem.spec_rd32(ctx.wrapping_add(4)),
                nowhere0 == (order == 0 && old(self).mem.spec_rd8(ctx) != 0 && context_states_apart(*old(self), ctx) && states_stay(
                    *old(self),
                    ctx,
                ) && states_lead_nowhere(*old(self), ctx)),
                m0 == old(self).mem.bytes(),
                base == old(self).mem.spec_rd32(ctx.wrapping_add(4)) as int,
                nowhere0 ==> {
                    let m = self.mem.bytes();
                    &&& ns == k
                    &&& stats as int == base
                    &&& *self == (Ppmd8 { mem: self.mem, ..*old(self) })
                    &&& m.len() == m0.len()
                    &&& forall|j: int| 0 <= j <= k ==> #[trigger] state_at(m, base + 6 * j) == state_at(m0, base + 6 * j)
                    &&& forall|j: int| k < j <= ns0 ==> #[trigger] state_at(m, base + 6 * j) == (m0[base + 6 * j], m0[base + 6 * j + 1], 0int)
                    &&& forall|x: int| 0 <= x < m0.len() && !(base <= x < base + 6 * (ns0 + 1)) ==> #[trigger] m[x] == m0[x]
                },
            decreases k + 1,
        {
            let s = stats.wrapping_add((k as u32) * STATE_SIZE);
            let ghost mb = self.mem.bytes();
            proof {
                if nowhere {
                    assert(s == super::grow::state_offset(stats, k as int));
                    assert(self.mem.spec_rd32(super::grow::state_offset(stats, k as int).wrapping_add(2)) < self.units_start);
                }
                if nowhere0 {
                    assert(s == super::grow::state_offset(stats, k as int));
                    assert(s as int == base + 6 * k);
                    assert(s.wrapping_add(2) as int == base + 6 * k + 2);
                    assert(state_at(mb, base + 6 * k) == state_at(m0, base + 6 * k));
                    assert(self.mem.spec_rd32(s.wrapping_add(2)) == old(self).mem.spec_rd32(s.wrapping_add(2)));
                    assert(self.mem.spec_rd32(super::grow::state_offset(stats, k as int).wrapping_add(2)) < self.units_start);
                }
            }
            let successor = self.successor(s);
            if !self.is_real_context(successor) {
                let last = stats.wrapping_add((ns as u32) * STATE_SIZE);
                ns = ns - 1;
                if order != 0 {
                    if s != last {
                        self.copy_state(last, s);
                    }
                } else {
                    self.swap_states(s, last);
                    let ghost mw = self.mem.bytes();
                    self.set_successor(last, 0);
                    proof {
                        if nowhere0 {
                            let m = self.mem.bytes();
                            let kk = k as int;
                            let a = base + 6 * kk;
                            assert(last == s);
                            assert(last.wrapping_add(2) as int == a + 2);
                            assert(m[a] == mw[a] && m[a + 1] == mw[a + 1]);
                            assert(state_at(m, a) == (m0[a], m0[a + 1], 0int));
                            assert forall|x: int| 0 <= x < m0.len() && !(a + 2 <= x < a + 6) implies #[trigger] m[x] == mb[x] by {
                                assert(m[x] == mw[x]);
                            }
                            assert forall|j: int| 0 <= j <= kk - 1 implies #[trigger] state_at(m, base + 6 * j) == state_at(m0, base + 6 * j) by {
                                let b = base + 6 * j;
                                assert forall|y: int| b <= y < b + 6 implies #[trigger] m[y] == mb[y - b + b] by {
                                    assert(m[y] == mb[y]);
                                }
                                super::adapt::lemma_same_state(m, b, mb, b);
                            }
                            assert forall|j: int| kk - 1 < j <= ns0 implies #[trigger] state_at(m, base + 6 * j) == (m0[base + 6 * j], m0[base + 6 * j + 1], 0int) by {
                                if j != kk {
                                    let b = base + 6 * j;
                                    assert forall|y: int| b <= y < b + 6 implies #[trigger] m[y] == mb[y - b + b] by {
                                        assert(m[y] == mb[y]);
                                    }
                                    super::adapt::lemma_same_state(m, b, mb, b);
                                }
                            }
                            assert forall|x: int| 0 <= x < m0.len() && !(base <= x < base + 6 * (ns0 + 1)) implies #[trigger] m[x] == m0[x] by {
                                assert(m[x] == mb[x]);
                            }
                        }
                    }
                }
            } else if order < self.max_order {
                let r = self.cut_off(successor, order + 1);
                self.set_successor(s, r);
            } else {
                self.set_successor(s, 0);
            }
            k = k - 1;
        }
        if ns != self.num_stats(ctx) as i32 && order != 0 {
            if ns < 0 {
                self.free_units(stats, nu);
                self.special_free_unit(ctx);
                return 0;
            }
            self.set_num_stats(ctx, ns as u8);
            if ns == 0 {
                self.make_binary(ctx, stats);
                self.free_units(stats, nu);
            } else {
                let scale: u32 = if self.summ_freq(ctx) > 16 * (ns as u32) {
                    1
                } else {
                    0
                };
                self.refresh(ctx, nu, scale);
            }
        }
        ctx
    }

    /// The bytes of the model memory in use, taken modulo 2^32.
    pub fn get_used_memory(&self) -> (r: u32)
        requires
            self.wf(),
        ensures
            r == used_memory(*self) as u32,
    {
        let mut v: u64 = 0;
        let mut i: u32 = 0;
        while i < PPMD_NUM_INDEXES
            invariant
                self.wf(),
                i <= PPMD_NUM_INDEXES,
                v as int == stamped_units(self.stamps@, i as int),
                v <= i * 0x80_0000_0000,
            decreases PPMD_NUM_INDEXES - i,
        {
            let st = self.stamps[i as usize] as u64;
            let nu = self.i2u(i) as u64;
            assert(st * nu <= 0x80_0000_0000) by (nonlinear_arith)
                requires
                    st < 0x1_0000_0000,
                    nu <= 128,
            ;
            v = v + st * nu;
            i = i + 1;
        }
        assert(v <= 38 * 0x80_0000_0000);
        let free_units = v as i64;
        assert(free_units * 12 <= 38 * 0x80_0000_0000 * 12);
        let free_bytes: i64 = free_units * (UNIT_SIZE as i64);
        let free_area: i64 = (self.hi_unit as i64) - (self.lo_unit as i64);
        let gap: i64 = (self.units_start as i64) - (self.text as i64);
        assert(-0x1_0000_0000 < free_area < 0x1_0000_0000);
        assert(-0x1_0000_0000 < gap < 0x1_0000_0000);
        let total: i64 = (self.size as i64) - free_area - gap - free_bytes;
        total as u32
    }

    /// Turns a context with one state left in its block of states at `stats` into a
    /// binary context that holds that state itself; the block is the caller's to
    /// free.
    pub fn make_binary(&mut self, c: u32, stats: u32)
        requires
            old(self).wf(),
        ensures
            model_frame(*old(self), *final(self)),
            mem_only(*old(self), *final(self)),
            ({
                let m0 = old(self).mem.bytes();
                let m = final(self).mem.bytes();
                let ci = c as int;
                let si = stats as int;
                ci + 8 <= m0.len() && si + 6 <= m0.len() && (ci + 8 <= si || si + 6 <= ci + 1) ==> {
                    &&& m[ci + 1] as int == (m0[ci + 1] & 16u8) as int + (if m0[si] >= 0x40 {
                        8int
                    } else {
                        0int
                    })
                    &&& state_at(m, ci + 2) == (m0[si], ((m0[si + 1] + 11) / 8) as u8, le32(m0, si + 2))
                    &&& forall|x: int| 0 <= x < m0.len() && !(ci + 1 <= x < ci + 8) ==> #[trigger] m[x] == m0[x]
                }
            }),
    {
        let ghost m0 = self.mem.bytes();
        let sym = self.sym(stats);
        let f0 = self.flags(c);
        let high = f0 & (FLAG_PREV_HIGH as u32);
        assert(f0 & 16 <= 16) by (bit_vector);
        let fl = high + hi_bits_flag3(sym);
        self.set_flags(c, fl as u8);
        let ghost m1 = self.mem.bytes();
        let one = self.single_state(c);
        self.set_sym(one, sym as u8);
        let ghost m2 = self.mem.bytes();
        let f1 = self.freq(stats);
        let t1: u32 = f1 + 11;
        let freq = t1 >> 3;
        assert(t1 < 300 ==> t1 >> 3 < 256 && t1 >> 3 == t1 / 8) by (bit_vector);
        self.set_freq(one, freq as u8);
        let ghost m3 = self.mem.bytes();
        let succ = self.successor(stats);
        self.set_successor(one, succ);
        proof {
            let m = self.mem.bytes();
            let ci = c as int;
            let si = stats as int;
            if ci + 8 <= m0.len() && si + 6 <= m0.len() && (ci + 8 <= si || si + 6 <= ci + 1) {
                assert(c.wrapping_add(1) as int == ci + 1);
                assert(one as int == ci + 2);
                assert(one.wrapping_add(1) as int == ci + 3);
                assert(one.wrapping_add(2) as int == ci + 4);
                assert(stats.wrapping_add(1) as int == si + 1);
                assert(stats.wrapping_add(2) as int == si + 2);
                assert forall|x: int| 0 <= x < m0.len() && !(ci + 1 <= x < ci + 8) implies #[trigger] m[x] == m0[x] by {
                    assert(m[x] == m3[x]);
                    assert(m3[x] == m2[x]);
                    assert(m2[x] == m1[x]);
                    assert(m1[x] == m0[x]);
                }
                assert(f1 == m0[si + 1]);
                assert(succ as int == le32(m0, si + 2)) by {
                    assert(m3[si + 2] == m0[si + 2] && m3[si + 3] == m0[si + 3]);
                    assert(m3[si + 4] == m0[si + 4] && m3[si + 5] == m0[si + 5]);
                }
                assert(m[ci + 1] == m1[ci + 1]);
                assert(m[ci + 2] == m2[ci + 2]);
                assert(m[ci + 3] == m3[ci + 3]);
            }
        }
    }

    /// Recovers from a failed allocation while the contexts from `max_context` down
    /// to `ctx_error` were being given a new symbol: takes that symbol out of them
    /// again, raises the escape frequency of the contexts from there to
    /// `min_context`, and then either restarts the model or prunes it until at most
    /// three quarters of the memory are in use. Afterwards the current context is the
    /// longest one.
    ///
    /// A walk along the suffixes that does not reach its end, and the pruning, stop
    /// after as many rounds as the memory has bytes.
    pub fn restore_model(&mut self, ctx_error: u32)
        requires
            old(self).wf(),
        ensures
            model_frame(*old(self), *final(self)),
            final(self).min_context == final(self).max_context,
            final(self).order_fall == final(self).max_order,
            final(self).glue_count == 0,
            old(self).restore_method == RestoreMethod::Restart ==> final(self).started(),
            final(self).run_length == final(self).init_rl || run_kept(*old(self), *final(self)),
            final(self).text == final(self).align_offset,
            old(self).restore_method == RestoreMethod::CutOff ==> final(self).started() || (final(self).lo_unit
                == old(self).lo_unit && final(self).hi_unit == old(self).hi_unit),
            ({
                let used = used_memory(Ppmd8 { text: old(self).align_offset, ..*old(self) }) as u32;
                old(self).restore_method == RestoreMethod::CutOff && ctx_error == old(self).max_context && old(self).max_context
                    == old(self).min_context ==> {
                    &&& used < (old(self).size >> 1) ==> final(self).started()
                    &&& used >= (old(self).size >> 1) ==> final(self).lo_unit == old(self).lo_unit && final(self).hi_unit
                        == old(self).hi_unit
                }
            }),
    {
        let ghost nowalk = ctx_error == old(self).max_context && old(self).max_context == old(self).min_context;
        self.text = self.align_offset;
        let mut c = self.max_context;
        let mut fuel: usize = self.mem.len();
        while c != ctx_error && fuel > 0
            invariant
                model_frame(*old(self), *self),
                run_kept(*old(self), *self),
                self.text == self.align_offset,
                self.lo_unit == old(self).lo_unit,
                self.hi_unit == old(self).hi_unit,
                nowalk == (ctx_error == old(self).max_context && old(self).max_context == old(self).min_context),
                nowalk ==> *self == (Ppmd8 { text: old(self).align_offset, ..*old(self) }) && c == old(self).max_context,
            decreases fuel,
        {
            fuel = fuel - 1;
            let ns = (self.num_stats(c) as u8).wrapping_sub(1);
            self.set_num_stats(c, ns);
            if ns == 0 {
                let st = self.stats(c);
                self.make_binary(c, st);
                self.special_free_unit(st);
            } else {
                self.refresh(c, ((ns as u32) + 3) >> 1, 0);
            }
            c = self.suffix(c);
        }
        let mut fuel: usize = self.mem.len();
        while c != self.min_context && fuel > 0
            invariant
                model_frame(*old(self), *self),
                run_kept(*old(self), *self),
                self.text == self.align_offset,
                self.lo_unit == old(self).lo_unit,
                self.hi_unit == old(self).hi_unit,
                nowalk == (ctx_error == old(self).max_context && old(self).max_context == old(self).min_context),
                nowalk ==> *self == (Ppmd8 { text: old(self).align_offset, ..*old(self) }) && c == old(self).max_context,
            decreases fuel,
        {
            fuel = fuel - 1;
            let ns = self.num_stats(c);
            if ns == 0 {
                let one = self.single_state(c);
                let f = self.freq(one);
                self.set_freq(one, ((f + 1) >> 1) as u8);
            } else {
                let summ = (self.summ_freq(c) as u16).wrapping_add(4);
                self.set_summ_freq(c, summ);
                if (summ as u32) > 128 + 4 * ns {
                    self.refresh(c, (ns + 2) >> 1, 1);
                }
            }
            c = self.suffix(c);
        }
        let restart = match self.restore_method {
            RestoreMethod::Restart => true,
            RestoreMethod::CutOff => false,
        };
        if restart || self.get_used_memory() < (self.size >> 1) {
            self.restart_model();
        } else {
            let mut fuel: usize = self.mem.len();
            while self.suffix(self.max_context) != 0 && fuel > 0
                invariant
                    model_frame(*old(self), *self),
                    run_kept(*old(self), *self),
                    self.text == self.align_offset,
                    self.lo_unit == old(self).lo_unit,
                    self.hi_unit == old(self).hi_unit,
                decreases fuel,
            {
                fuel = fuel - 1;
                self.max_context = self.suffix(self.max_context);
            }
            let mut fuel: usize = self.mem.len();
            while fuel > 0
                invariant
                    model_frame(*old(self), *self),
                    run_kept(*old(self), *self),
                    self.text == self.align_offset,
                    self.lo_unit == old(self).lo_unit,
                    self.hi_unit == old(self).hi_unit,
                decreases fuel,
            {
                fuel = fuel - 1;
                let mc = self.max_context;
                self.cut_off(mc, 0);
                self.expand_text_area();
                let size = self.size;
                let quarter = size >> 2;
                assert(quarter <= 0x4000_0000) by (bit_vector)
                    requires
                        quarter == size >> 2,
                ;
                if self.get_used_memory() <= 3 * quarter {
                    break;
                }
            }
            self.glue_count = 0;
            self.order_fall = self.max_order;
        }
        self.min_context = self.max_context;
    }
}

} // verus!

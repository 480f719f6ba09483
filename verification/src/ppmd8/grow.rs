//! How the PPMd8 model grows after a symbol: new contexts for the longer orders,
//! the fall back to shorter ones, and the symbol added to each context that lacked
//! it.
//!
//! As elsewhere, the model memory may be inconsistent after a corrupt stream. Where
//! a search for a symbol does not find it among the 256 states a context can hold,
//! a walk along the suffixes does not end, or more contexts would have to be made
//! than there are orders, the functions give up as on a failed allocation.

use vstd::prelude::*;

use super::model::{hi_bits_flag3, hi_bits_flag4, Ppmd8};
use super::arena::{fits, le16, le32, same_outside};
use super::units::alloc_frame;
use super::update::{freq_sum, lemma_freq_sum_frame, mem_only, model_frame, run_kept, state_at, STATE_SIZE};
use super::{index_units, units2index_wf, RestoreMethod, MAX_FREQ, UNIT_SIZE};
use crate::PPMD8_MAX_ORDER;
use vstd::arithmetic::div_mod::{lemma_fundamental_div_mod, lemma_mod_multiples_vanish};

verus! {

/// The offset of the `j`-th state from `stats`, taken modulo 2^32.
pub open spec fn state_offset(stats: u32, j: int) -> u32 {
    ((stats + 6 * j) % 0x1_0000_0000) as u32
}

/// The size class for a number of units never falls as the number grows.
proof fn lemma_units2index_monotone(t: Seq<u8>, a: int, b: int)
    requires
        units2index_wf(t),
        0 <= a <= b < 128,
    ensures
        t[a] <= t[b],
{
    let ta = t[a] as int;
    let tb = t[b] as int;
    if ta > tb {
        assert(index_units(ta - 1) < a + 1);
        assert(index_units(tb) >= b + 1);
        assert(index_units(tb) <= index_units(ta - 1));
    }
}

/// `create_successors` makes exactly one context, taken from the top of the free
/// area: it links the found state (`skip` zero) from the context `c`, which has no
/// suffix, the free area is not empty, and the found state's successor field lies in
/// the memory apart from the unit below the free area's top.
pub open spec fn one_context_made<RC>(p: Ppmd8<RC>, skip: i32, c: u32) -> bool {
    let fs2 = p.found_state.wrapping_add(2);
    let hi = p.hi_unit;
    &&& skip == 0
    &&& p.mem.spec_rd32(c.wrapping_add(8)) == 0
    &&& p.mem.bytes().len() > 0
    &&& hi != p.lo_unit
    &&& 12 <= hi <= p.mem.bytes().len()
    &&& fits(fs2, 4, p.mem.bytes().len())
    &&& (fs2 + 4 <= hi - 12 || hi <= fs2)
}

/// `b` is `a` after `update_model` took its first text step: the found symbol is
/// written at the text position, which moves on by one, the found state leads to the
/// text that follows, and nothing else changes.
pub open spec fn text_step_taken<RC>(a: Ppmd8<RC>, b: Ppmd8<RC>) -> bool {
    let fs2 = a.found_state.wrapping_add(2);
    &&& b == (Ppmd8 { mem: b.mem, text: (a.text + 1) as u32, ..a })
    &&& b.mem.spec_rd8(a.text) == a.mem.spec_rd8(a.found_state)
    &&& b.mem.spec_rd32(fs2) == a.text + 1
    &&& b.mem.bytes().len() == a.mem.bytes().len()
    &&& forall|j: int|
        0 <= j < a.mem.bytes().len() && j != a.text && !(fs2 <= j < fs2 + 4) ==> #[trigger] b.mem.bytes()[j]
            == a.mem.bytes()[j]
}

/// The frequency `update_model` gives the found symbol's new state in a context whose
/// sum is `sum`, with `s0` the sum of the current context less its state count and the
/// found frequency `f`; and the context's new sum.
pub open spec fn added_state_freq(sum: u32, s0: u32, f: u32) -> (u32, u32) {
    let cf = sum.wrapping_add(6).wrapping_mul(2).wrapping_mul(f);
    let sf = s0.wrapping_add(sum);
    if cf < sf.wrapping_mul(6) {
        ((1 + (if cf > sf { 1u32 } else { 0u32 }) + (if cf >= sf.wrapping_mul(4) { 1u32 } else { 0u32 })) as u32, sum.wrapping_add(4))
    } else {
        let v: u32 = (4 + (if cf > sf.wrapping_mul(9) { 1u32 } else { 0u32 }) + (if cf > sf.wrapping_mul(12) { 1u32 } else { 0u32 })
            + (if cf > sf.wrapping_mul(15) { 1u32 } else { 0u32 })) as u32;
        (v, sum.wrapping_add(v))
    }
}

/// `update_model` from a context one order longer than the current one: the found
/// state is frequent enough that its suffix is left alone and already leads to a
/// context, the model has fallen back, the longest context has the current one as
/// suffix and an odd number of states (so its block has room for one more), and the
/// text, the two contexts, the new state's place and the found state lie in the
/// memory apart from each other.
pub open spec fn one_escape_step<RC>(p: Ppmd8<RC>) -> bool {
    let len = p.mem.bytes().len();
    let m = p.mem.bytes();
    let fs = p.found_state as int;
    let mc = p.min_context as int;
    let c = p.max_context as int;
    let t = p.text as int;
    let ns1 = m[c] as int;
    let st = le32(m, c + 4) + 6 * (ns1 + 1);
    &&& p.order_fall != 0
    &&& fs + 6 <= len && mc + 12 <= len && c + 12 <= len && t + 1 <= len
    &&& m[fs + 1] >= MAX_FREQ / 4
    &&& le32(m, fs + 2) >= p.units_start
    &&& le32(m, c + 8) == mc
    &&& c != mc
    &&& ns1 != 0 && ns1 % 2 == 0
    &&& t + 1 < p.units_start
    &&& st + 6 <= len
    &&& (st + 6 <= c || c + 12 <= st)
    &&& (t < c || c + 12 <= t) && (t < mc || mc + 12 <= t) && (t < st || st + 6 <= t) && (t < fs || fs + 6 <= t)
}

/// `b` is `a` after `update_model` took the step `one_escape_step` describes: the
/// symbol is written to the text, the longest context gains one state for it, with
/// its estimated frequency and the text's next position (or, at full order, the
/// found state's successor) as successor, and the current context becomes that
/// successor.
pub open spec fn one_escape_taken<RC>(a: Ppmd8<RC>, b: Ppmd8<RC>) -> bool {
    let m0 = a.mem.bytes();
    let m = b.mem.bytes();
    let fs = a.found_state as int;
    let mc = a.min_context as int;
    let c = a.max_context as int;
    let t = a.text as int;
    let ns1 = m0[c] as int;
    let st = le32(m0, c + 4) + 6 * (ns1 + 1);
    let f = m0[fs + 1] as u32;
    let sym = m0[fs];
    let succ = le32(m0, fs + 2);
    let max_succ = if a.order_fall == 1 { succ } else { t + 1 };
    let more: u32 = if 3 * ns1 + 1 < m0[mc] { 1 } else { 0 };
    let sum = (le16(m0, c + 2) + more) as u32;
    let s0 = (le16(m0, mc + 2) as u32).wrapping_sub(m0[mc] as u32).wrapping_sub(f);
    let added = added_state_freq(sum, s0, f);
    &&& b.min_context == succ
    &&& b.max_context == succ
    &&& b.order_fall == a.order_fall - 1
    &&& b.text == (if a.order_fall == 1 { t } else { t + 1 })
    &&& m.len() == m0.len()
    &&& m[t] == sym
    &&& m[c] == ns1 + 1
    &&& m[c + 1] == (m0[c + 1] as u32 | (if sym >= 0x40 { 8u32 } else { 0u32 })) as u8
    &&& le16(m, c + 2) == (added.1 as u16) as int
    &&& state_at(m, st) == (sym, added.0 as u8, max_succ)
    &&& forall|x: int| 0 <= x < m0.len() && x != t && !(c <= x < c + 4) && !(st <= x < st + 6) ==> #[trigger] m[x] == m0[x]
}

/// The index of the first of the `n + 1` states from `stats` in `m` whose symbol is
/// `sym`.
pub open spec fn first_with_sym(m: Seq<u8>, stats: int, n: int, sym: u8) -> int {
    choose|k: int| 0 <= k <= n && #[trigger] m[stats + 6 * k] == sym && forall|j: int| 0 <= j < k ==> #[trigger] m[stats + 6 * j] != sym
}

/// Where one of the `n + 1` states from `stats` has the symbol `sym`, the first of
/// them is one.
pub(crate) proof fn lemma_first_with_sym(m: Seq<u8>, stats: int, n: int, sym: u8)
    requires
        exists|k: int| 0 <= k <= n && #[trigger] m[stats + 6 * k] == sym,
    ensures
        ({
            let k = first_with_sym(m, stats, n, sym);
            &&& 0 <= k <= n && m[stats + 6 * k] == sym
            &&& forall|j: int| 0 <= j < k ==> #[trigger] m[stats + 6 * j] != sym
        }),
{
    let w = choose|k: int| 0 <= k <= n && #[trigger] m[stats + 6 * k] == sym;
    lemma_first_below(m, stats, w, sym);
}

/// Below a state with the symbol `sym` at index `w` there is a first one.
proof fn lemma_first_below(m: Seq<u8>, stats: int, w: int, sym: u8)
    requires
        0 <= w,
        m[stats + 6 * w] == sym,
    ensures
        exists|k: int| 0 <= k <= w && #[trigger] m[stats + 6 * k] == sym && forall|j: int| 0 <= j < k ==> #[trigger] m[stats + 6 * j] != sym,
    decreases w,
{
    if exists|j: int| 0 <= j < w && #[trigger] m[stats + 6 * j] == sym {
        let j = choose|j: int| 0 <= j < w && #[trigger] m[stats + 6 * j] == sym;
        lemma_first_below(m, stats, j, sym);
    } else {
        assert(forall|j: int| 0 <= j < w ==> #[trigger] m[stats + 6 * j] != sym);
    }
}

/// Changing only the frequency of the `i`-th of `k` states changes their sum by as
/// much.
pub(crate) proof fn lemma_freq_sum_one(m1: Seq<u8>, m2: Seq<u8>, s0: int, k: int, i: int)
    requires
        0 <= i < k,
        forall|j: int| 0 <= j < k && j != i ==> #[trigger] m1[s0 + 6 * j + 1] == m2[s0 + 6 * j + 1],
    ensures
        freq_sum(m2, s0, k) == freq_sum(m1, s0, k) + m2[s0 + 6 * i + 1] - m1[s0 + 6 * i + 1],
    decreases k,
{
    if k - 1 == i {
        assert forall|j: int| 0 <= j < k - 1 implies #[trigger] m1[s0 + 6 * j + 1] == m2[s0 + 6 * j + 1] by {}
        lemma_freq_sum_frame(m1, m2, s0, k - 1);
    } else {
        lemma_freq_sum_one(m1, m2, s0, k - 1, i);
        assert(m1[s0 + 6 * (k - 1) + 1] == m2[s0 + 6 * (k - 1) + 1]);
    }
}

/// Changing only the frequencies of the `i`-th and `i2`-th of `k` states changes
/// their sum by as much as both changed.
pub(crate) proof fn lemma_freq_sum_two(m1: Seq<u8>, m2: Seq<u8>, s0: int, k: int, i: int, i2: int)
    requires
        0 <= i < i2 < k,
        forall|j: int| 0 <= j < k && j != i && j != i2 ==> #[trigger] m1[s0 + 6 * j + 1] == m2[s0 + 6 * j + 1],
    ensures
        freq_sum(m2, s0, k) == freq_sum(m1, s0, k) + m2[s0 + 6 * i + 1] - m1[s0 + 6 * i + 1] + m2[s0 + 6 * i2 + 1] - m1[s0
            + 6 * i2 + 1],
    decreases k,
{
    if k - 1 == i2 {
        assert forall|j: int| 0 <= j < k - 1 && j != i implies #[trigger] m1[s0 + 6 * j + 1] == m2[s0 + 6 * j + 1] by {}
        lemma_freq_sum_one(m1, m2, s0, k - 1, i);
    } else {
        lemma_freq_sum_two(m1, m2, s0, k - 1, i, i2);
        assert(m1[s0 + 6 * (k - 1) + 1] == m2[s0 + 6 * (k - 1) + 1]);
    }
}

/// `update_model` counts the found symbol again in the suffix of the current
/// context: the found state is rare (below a quarter of the limit), the suffix has
/// several states, one of which holds the found symbol, and they lie inside the
/// memory apart from the suffix's own fields.
pub open spec fn suffix_raise_case<RC>(p: Ppmd8<RC>) -> bool {
    let m = p.mem.bytes();
    let fs = p.found_state as int;
    let mc = p.min_context as int;
    let c = le32(m, mc + 8);
    let n = m[c] as int;
    let stats = le32(m, c + 4);
    &&& fs + 6 <= m.len() && mc + 12 <= m.len()
    &&& c != 0 && c + 12 <= m.len()
    &&& m[fs + 1] < MAX_FREQ / 4
    &&& n >= 1
    &&& stats + 6 * (n + 1) <= m.len()
    &&& (stats + 6 * (n + 1) <= c || c + 12 <= stats)
    &&& exists|k: int| 0 <= k <= n && #[trigger] m[stats + 6 * k] == m[fs]
}

/// `update_model` counts the found symbol again in the suffix of the current
/// context, which holds one state, inside the memory.
pub open spec fn single_suffix_case<RC>(p: Ppmd8<RC>) -> bool {
    let m = p.mem.bytes();
    let fs = p.found_state as int;
    let c = le32(m, p.min_context + 8);
    &&& fs + 6 <= m.len() && p.min_context + 12 <= m.len()
    &&& c != 0 && c + 12 <= m.len()
    &&& m[fs + 1] < MAX_FREQ / 4
    &&& m[c] == 0
}

/// `b` is `a` after the found symbol was counted again in the suffix of the current
/// context, with `st` its state there now: the first state of the symbol moved one
/// place ahead where its neighbour's frequency was not above its own, its frequency
/// and the suffix's sum rose by 2 where it was below the limit less 9, and nothing
/// else changed.
pub open spec fn suffix_raised<RC>(a: Ppmd8<RC>, b: Ppmd8<RC>, st: u32) -> bool {
    let m0 = a.mem.bytes();
    let m = b.mem.bytes();
    let c = le32(m0, a.min_context + 8);
    let n = m0[c] as int;
    let stats = le32(m0, c + 4);
    let sym = m0[a.found_state as int];
    let k = first_with_sym(m0, stats, n, sym);
    let f = m0[stats + 6 * k + 1] as int;
    let d: int = if f < MAX_FREQ - 9 { 2 } else { 0 };
    let moved = k >= 1 && f >= m0[stats + 6 * (k - 1) + 1];
    let lo = if k >= 1 { stats + 6 * (k - 1) } else { stats };
    &&& b == (Ppmd8 { mem: b.mem, ..a })
    &&& m.len() == m0.len()
    &&& st == (if moved { stats + 6 * (k - 1) } else { stats + 6 * k })
    &&& state_at(m, st as int) == (sym, (f + d) as u8, le32(m0, stats + 6 * k + 2))
    &&& moved ==> state_at(m, stats + 6 * k) == state_at(m0, stats + 6 * (k - 1))
    &&& le16(m, c + 2) == (le16(m0, c + 2) + d) % 0x1_0000
    &&& freq_sum(m, stats, n + 1) == freq_sum(m0, stats, n + 1) + d
    &&& forall|x: int| 0 <= x < m0.len() && !(lo <= x < stats + 6 * k + 6) && !(c + 2 <= x < c + 4) ==> #[trigger] m[x] == m0[x]
}

/// What `raise_in_suffix` does to the suffix's states and sum, step by step, makes
/// `suffix_raised`: the first state of the found symbol and the one before it
/// exchanged where the found one was not below, then its frequency and the sum
/// raised by 2 below the limit less 9.
proof fn lemma_suffix_raised<RC>(a: Ppmd8<RC>, b: Ppmd8<RC>, m_sw: Seq<u8>, st: u32)
    requires
        suffix_raise_case(a),
        b == (Ppmd8 { mem: b.mem, ..a }),
        ({
            let m0 = a.mem.bytes();
            let m = b.mem.bytes();
            let c = le32(m0, a.min_context + 8);
            let n = m0[c] as int;
            let stats = le32(m0, c + 4);
            let k = first_with_sym(m0, stats, n, m0[a.found_state as int]);
            let f = m0[stats + 6 * k + 1] as int;
            let moved = k >= 1 && f >= m0[stats + 6 * (k - 1) + 1];
            &&& st == (if moved { stats + 6 * (k - 1) } else { stats + 6 * k })
            &&& m_sw.len() == m0.len()
            &&& moved ==> {
                &&& state_at(m_sw, st as int) == state_at(m0, stats + 6 * k)
                &&& state_at(m_sw, stats + 6 * k) == state_at(m0, st as int)
                &&& forall|x: int| 0 <= x < m0.len() && !(st <= x < st + 6) && !(stats + 6 * k <= x < stats + 6 * k + 6) ==> #[trigger] m_sw[x] == m0[x]
            }
            &&& !moved ==> m_sw == m0
            &&& f < MAX_FREQ - 9 ==> {
                &&& same_outside(m_sw.update(st + 1, (f + 2) as u8), m, c + 2, 2)
                &&& le16(m, c + 2) == (le16(m_sw, c + 2) + 2) % 0x1_0000
            }
            &&& !(f < MAX_FREQ - 9) ==> m == m_sw
        }),
    ensures
        suffix_raised(a, b, st),
{
    let m0 = a.mem.bytes();
    let m = b.mem.bytes();
    let c = le32(m0, a.min_context + 8);
    let n = m0[c] as int;
    let stats = le32(m0, c + 4);
    let sym = m0[a.found_state as int];
    lemma_first_with_sym(m0, stats, n, sym);
    let k = first_with_sym(m0, stats, n, sym);
    let f = m0[stats + 6 * k + 1] as int;
    let d: int = if f < MAX_FREQ - 9 { 2 } else { 0 };
    let moved = k >= 1 && f >= m0[stats + 6 * (k - 1) + 1];
    let lo = if k >= 1 { stats + 6 * (k - 1) } else { stats };
    assert(m_sw[c + 2] == m0[c + 2] && m_sw[c + 3] == m0[c + 3]);
    assert(m_sw[st as int] == sym && m_sw[st + 1] == f);
    assert(m[st as int] == m_sw[st as int]);
    assert(m[st + 2] == m_sw[st + 2] && m[st + 3] == m_sw[st + 3] && m[st + 4] == m_sw[st + 4] && m[st + 5] == m_sw[st + 5]);
    assert(le32(m_sw, st + 2) == le32(m0, stats + 6 * k + 2));
    if moved {
        assert(m[stats + 6 * k] == m_sw[stats + 6 * k] && m[stats + 6 * k + 1] == m_sw[stats + 6 * k + 1]);
        assert(m[stats + 6 * k + 2] == m_sw[stats + 6 * k + 2] && m[stats + 6 * k + 3] == m_sw[stats + 6 * k + 3]);
        assert(m[stats + 6 * k + 4] == m_sw[stats + 6 * k + 4] && m[stats + 6 * k + 5] == m_sw[stats + 6 * k + 5]);
    }
    assert forall|x: int| 0 <= x < m0.len() && !(lo <= x < stats + 6 * k + 6) && !(c + 2 <= x < c + 4) implies #[trigger] m[x] == m0[x] by {
        assert(m[x] == m_sw[x]);
    }
    assert forall|j: int| 0 <= j < n + 1 && j != k - 1 && j != k implies #[trigger] m0[stats + 6 * j + 1] == m[stats + 6 * j + 1] by {
        assert(m[stats + 6 * j + 1] == m_sw[stats + 6 * j + 1]);
    }
    if k >= 1 {
        assert(m[lo + 1] == m_sw[lo + 1] || lo == st);
        assert(m[lo + 1] + m[stats + 6 * k + 1] == m0[lo + 1] + m0[stats + 6 * k + 1] + d);
        lemma_freq_sum_two(m0, m, stats, n + 1, k - 1, k);
    } else {
        assert forall|j: int| 0 <= j < n + 1 && j != 0 implies #[trigger] m0[stats + 6 * j + 1] == m[stats + 6 * j + 1] by {
            assert(j != k - 1 && j != k);
        }
        lemma_freq_sum_one(m0, m, stats, n + 1, 0);
    }
}

/// Counting the found symbol again in the suffix of the current context keeps that
/// context's escape count: its sum less the frequencies of its states is what it
/// was (in the 16 bits the sum has), and the frequencies of its states grow by
/// exactly what the found symbol's state gained.
pub proof fn law_suffix_raise_keeps_escape<RC>(a: Ppmd8<RC>, b: Ppmd8<RC>, st: u32)
    requires
        a.wf(),
        suffix_raise_case(a),
        suffix_raised(a, b, st),
    ensures
        ({
            let m0 = a.mem.bytes();
            let m = b.mem.bytes();
            let c = le32(m0, a.min_context + 8);
            let n = m0[c] as int;
            let stats = le32(m0, c + 4);
            let k = first_with_sym(m0, stats, n, m0[a.found_state as int]);
            &&& (le16(m, c + 2) - freq_sum(m, stats, n + 1)) % 0x1_0000 == (le16(m0, c + 2) - freq_sum(m0, stats, n + 1)) % 0x1_0000
            &&& freq_sum(m, stats, n + 1) - freq_sum(m0, stats, n + 1) == m[st + 1] - m0[stats + 6 * k + 1]
            &&& m[st as int] == m0[a.found_state as int]
            &&& m[st + 1] == m0[stats + 6 * k + 1] + (if m0[stats + 6 * k + 1] < MAX_FREQ - 9 { 2int } else { 0 })
        }),
{
    let m0 = a.mem.bytes();
    let m = b.mem.bytes();
    let c = le32(m0, a.min_context + 8);
    let n = m0[c] as int;
    let stats = le32(m0, c + 4);
    let k = first_with_sym(m0, stats, n, m0[a.found_state as int]);
    lemma_first_with_sym(m0, stats, n, m0[a.found_state as int]);
    let f = m0[stats + 6 * k + 1] as int;
    let d: int = if f < MAX_FREQ - 9 { 2 } else { 0 };
    let x = le16(m0, c + 2) + d;
    let y = freq_sum(m0, stats, n + 1) + d;
    let q = x / 0x1_0000;
    lemma_fundamental_div_mod(x, 0x1_0000);
    lemma_mod_multiples_vanish(-q, x - y, 0x1_0000);
    assert(0x1_0000 * (-q) + (x - y) == x % 0x1_0000 - y);
}

/// The frequency a new binary context gets for the symbol that follows in the text,
/// estimated from the state `s` of that symbol in the context `c` of more than one
/// state: one more than a share of the state's frequency (less one) against the rest
/// of the context's sum.
pub open spec fn estimated_freq<RC>(p: Ppmd8<RC>, c: u32, s: u32) -> u8 {
    let cf = (p.mem.spec_rd8(s.wrapping_add(1)) as u32).wrapping_sub(1);
    let s0 = (p.mem.spec_rd16(c.wrapping_add(2)) as u32).wrapping_sub(p.mem.spec_rd8(c) as u32).wrapping_sub(cf);
    let v: u32 = if cf.wrapping_mul(2) <= s0 {
        if cf.wrapping_mul(5) > s0 {
            1
        } else {
            0
        }
    } else {
        cf.wrapping_add(s0.wrapping_mul(2)).wrapping_sub(3) / s0
    };
    (v as u8).wrapping_add(1)
}

/// The `k`-th state of the context `c` is the first one whose symbol is `sym`.
pub open spec fn first_state_of<RC>(p: Ppmd8<RC>, c: u32, sym: u8, k: int) -> bool {
    let stats = p.mem.spec_rd32(c.wrapping_add(4));
    &&& 0 <= k < 256
    &&& p.mem.spec_rd8(state_offset(stats, k)) == sym
    &&& forall|j: int| 0 <= j < k ==> p.mem.spec_rd8(#[trigger] state_offset(stats, j)) != sym
}

/// `b` is `a` after `reduce_order` fell back from the context `c` to a state whose
/// successor `next` lies past the text: it returns `next`, counts one order fall,
/// and leaves the found state pointing at the text, or, where this was the first
/// fall from the longest context, at `next`, with the text one byte shorter.
pub open spec fn fell_back_to<RC>(a: Ppmd8<RC>, b: Ppmd8<RC>, r: Option<u32>, c: u32, next: u32) -> bool {
    let fs2 = a.found_state.wrapping_add(2);
    let first_fall = a.order_fall.wrapping_add(1) == 1 && c == a.max_context;
    &&& r == Some(next)
    &&& b.order_fall == a.order_fall.wrapping_add(1)
    &&& first_fall ==> b.text == a.text.wrapping_sub(1)
    &&& first_fall && fits(fs2, 4, a.mem.bytes().len()) ==> b.mem.spec_rd32(fs2) == next
    &&& !first_fall ==> b.text == a.text
    &&& !first_fall && fits(fs2, 4, a.mem.bytes().len()) ==> b.mem.spec_rd32(fs2) == a.text
}

/// `reduce_order` from the context `c`, with no state given, steps to a suffix that
/// holds one state whose successor lies past the text; the fields it reads and
/// writes lie apart from the found state's successor.
pub open spec fn binary_suffix_step<RC>(p: Ppmd8<RC>, s1: Option<u32>, c: u32) -> bool {
    let fs2 = p.found_state.wrapping_add(2);
    let c2 = p.mem.spec_rd32(c.wrapping_add(8));
    let one = c2.wrapping_add(2);
    &&& s1 is None
    &&& p.mem.bytes().len() > 0
    &&& fits(c.wrapping_add(8), 4, p.mem.bytes().len())
    &&& (fs2 + 4 <= c.wrapping_add(8) || c.wrapping_add(8) + 4 <= fs2)
    &&& c2 != 0
    &&& fits(c2, 8, p.mem.bytes().len())
    &&& (fs2 + 4 <= c2 || c2 + 8 <= fs2)
    &&& p.mem.spec_rd8(c2) == 0
    &&& p.mem.spec_rd32(one.wrapping_add(2)) > p.text
}

/// `reduce_order` from the context `c`, with no state given, steps to a suffix with
/// more than one state, whose first state holds the found symbol with a frequency
/// below the limit and a successor past the text; the fields it reads and writes lie
/// apart from each other and from the found state.
pub open spec fn counted_suffix_step<RC>(p: Ppmd8<RC>, s1: Option<u32>, c: u32) -> bool {
    let len = p.mem.bytes().len();
    let fs = p.found_state;
    let fs2 = fs.wrapping_add(2);
    let c8 = c.wrapping_add(8);
    let c2 = p.mem.spec_rd32(c8);
    let st = p.mem.spec_rd32(c2.wrapping_add(4));
    &&& s1 is None
    &&& len > 0
    &&& fits(fs, 6, len)
    &&& fits(c8, 4, len)
    &&& (fs2 + 4 <= c8 || c8 + 4 <= fs2)
    &&& c2 != 0
    &&& fits(c2, 8, len)
    &&& (fs2 + 4 <= c2 || c2 + 8 <= fs2)
    &&& p.mem.spec_rd8(c2) != 0
    &&& fits(st, 6, len)
    &&& (fs2 + 4 <= st || st + 6 <= fs2)
    &&& (st + 6 <= c2 + 2 || c2 + 4 <= st)
    &&& p.mem.spec_rd8(st) == p.mem.spec_rd8(fs)
    &&& p.mem.spec_rd8((st + 1) as u32) < MAX_FREQ - 9
    &&& p.mem.spec_rd32((st + 2) as u32) > p.text
}

/// `update_model` from the shortest context, whose found state has no successor yet:
/// the symbol goes to the text, which has room for it, and the fields written lie
/// apart from the context's suffix field and from each other.
pub open spec fn first_text_step<RC>(p: Ppmd8<RC>) -> bool {
    let len = p.mem.bytes().len();
    let fs2 = p.found_state.wrapping_add(2);
    let c8 = p.min_context.wrapping_add(8);
    &&& p.order_fall != 0
    &&& p.max_context == p.min_context
    &&& p.mem.spec_rd32(fs2) == 0
    &&& p.mem.spec_rd32(c8) == 0
    &&& p.text.wrapping_add(1) < p.units_start
    &&& fits(p.text, 1, len)
    &&& fits(fs2, 4, len)
    &&& fits(c8, 4, len)
    &&& (fs2 + 4 <= c8 || c8 + 4 <= fs2)
    &&& (p.text + 1 <= c8 || c8 + 4 <= p.text)
    &&& (p.text + 1 <= fs2 || fs2 + 4 <= p.text)
}

impl<RC> Ppmd8<RC> {
    /// The state of symbol `sym` among the states of the context `c` that has more
    /// than one, searched from the first: the first of the 256 states a context can
    /// hold whose symbol it is, or `None` where none is.
    pub fn find_state(&self, c: u32, sym: u32) -> (r: Option<u32>)
        requires
            self.wf(),
        ensures
            ({
                let stats = self.mem.spec_rd32(c.wrapping_add(4));
                match r {
                    Some(s) => exists|k: int|
                        0 <= k < 256 && s == state_offset(stats, k) && self.mem.spec_rd8(s) == sym && forall|j: int|
                            0 <= j < k ==> self.mem.spec_rd8(#[trigger] state_offset(stats, j)) != sym,
                    None => forall|j: int| 0 <= j < 256 ==> self.mem.spec_rd8(#[trigger] state_offset(stats, j)) != sym,
                }
            }),
    {
        let stats = self.stats(c);
        let mut s = stats;
        let mut k: u32 = 0;
        while k < 256
            invariant
                self.wf(),
                stats == self.mem.spec_rd32(c.wrapping_add(4)),
                k <= 256,
                s == state_offset(stats, k as int),
                forall|j: int| 0 <= j < k ==> self.mem.spec_rd8(#[trigger] state_offset(stats, j)) != sym,
            decreases 256 - k,
        {
            if self.sym(s) == sym {
                return Some(s);
            }
            proof {
                assert(state_offset(stats, k as int + 1) == s.wrapping_add(STATE_SIZE)) by {
                    vstd::arithmetic::div_mod::lemma_add_mod_noop(stats + 6 * k, 6, 0x1_0000_0000);
                    vstd::arithmetic::div_mod::lemma_small_mod(6, 0x1_0000_0000);
                }
            }
            s = s.wrapping_add(STATE_SIZE);
            k = k + 1;
        }
        None
    }

    /// Makes the contexts that follow the current symbol in the contexts from `c`
    /// down its suffixes: it walks down until a context whose state for the symbol
    /// already leads elsewhere (or the shortest one), then builds one binary context
    /// per order on the way back up, each holding the symbol that followed in the
    /// text. `s1`, where it is set, is the state to take in the first suffix
    /// instead of searching it; it is used up. With `skip` zero the found state is
    /// linked too. Returns the longest context, or `None` when an allocation fails.
    ///
    /// Where nothing is to be made (with `skip` set, `c` binary and without a
    /// suffix, or `s1` already leading elsewhere) the model stays as it was. Where
    /// one context is made for the found state, from a `c` without a suffix, it is
    /// the unit below the top of the free area: binary, holding the symbol that
    /// followed in the text with the text's next position as its successor, and
    /// `c` as its suffix; the found state then leads to it.
    pub fn create_successors(&mut self, skip: i32, s1: &mut Option<u32>, c: u32) -> (r: Option<u32>)
        requires
            old(self).wf(),
        ensures
            model_frame(*old(self), *final(self)),
            alloc_frame(*old(self), *final(self)),
            *final(s1) is None || *final(s1) == *old(s1),
            skip != 0 && old(self).mem.spec_rd32(c.wrapping_add(8)) == 0 && old(self).mem.spec_rd8(c) == 0
                ==> r == Some(c) && *final(self) == *old(self),
            skip != 0 && old(self).mem.spec_rd32(c.wrapping_add(8)) != 0 && old(self).mem.bytes().len() > 0 ==> (
            *old(s1) matches Some(st) ==> old(self).mem.spec_rd32(st.wrapping_add(2)) != old(self).mem.spec_rd32(
                old(self).found_state.wrapping_add(2),
            ) ==> r == Some(old(self).mem.spec_rd32(st.wrapping_add(2))) && *final(self) == *old(self)),
            old(self).mem.spec_rd32(c.wrapping_add(8)) != 0 && old(self).mem.bytes().len() > 0 && *old(s1) is Some
                ==> *final(s1) is None,
            one_context_made(*old(self), skip, c) && (old(self).mem.spec_rd8(c) == 0 || r is Some) ==> ({
                let fs = old(self).found_state;
                let up = old(self).mem.spec_rd32(fs.wrapping_add(2));
                let b = (old(self).hi_unit - 12) as u32;
                &&& r == Some(b)
                &&& final(self).hi_unit == b
                &&& final(self).mem.spec_rd8(b) == 0
                &&& final(self).mem.spec_rd8((b + 2) as u32) == old(self).mem.spec_rd8(up)
                &&& final(self).mem.spec_rd32((b + 4) as u32) == up.wrapping_add(1)
                &&& final(self).mem.spec_rd32((b + 8) as u32) == c
                &&& final(self).mem.spec_rd32(fs.wrapping_add(2)) == b
                &&& old(self).mem.spec_rd8(c) == 0 ==> final(self).mem.spec_rd8((b + 3) as u32) == old(self).mem.spec_rd8(
                    c.wrapping_add(2).wrapping_add(1),
                )
                &&& old(self).mem.spec_rd8(c) != 0 ==> exists|k: int|
                    first_state_of(*old(self), c, old(self).mem.spec_rd8(up), k) && final(self).mem.spec_rd8((b + 3) as u32)
                        == estimated_freq(*old(self), c, #[trigger] state_offset(old(self).mem.spec_rd32(c.wrapping_add(4)), k))
            }),
    {
        let mut cur = c;
        let up_branch = self.successor(self.found_state);
        let mut ps: Vec<u32> = Vec::new();
        if skip == 0 {
            ps.push(self.found_state);
        }
        let mut fuel: usize = self.mem.len();
        let ghost mut fresh = true;
        while self.suffix(cur) != 0 && fuel > 0
            invariant
                model_frame(*old(self), *self),
                alloc_frame(*old(self), *self),
                *s1 is None || *s1 == *old(s1),
                ps.len() <= PPMD8_MAX_ORDER + 1,
                up_branch == old(self).mem.spec_rd32(old(self).found_state.wrapping_add(2)),
                skip != 0 ==> ps.len() == 0 || !fresh,
                fresh ==> *self == *old(self) && *s1 == *old(s1) && cur == c && fuel == old(self).mem.bytes().len(),
                fresh ==> ps@ == (if skip == 0 { seq![old(self).found_state] } else { Seq::<u32>::empty() }),
                !fresh ==> old(self).mem.spec_rd32(c.wrapping_add(8)) != 0 && old(self).mem.bytes().len() > 0,
                !fresh && *old(s1) is Some ==> *s1 is None,
                !fresh && skip != 0 ==> (*old(s1) matches Some(st) ==> old(self).mem.spec_rd32(st.wrapping_add(2))
                    == up_branch),
            ensures
                fresh ==> old(self).mem.spec_rd32(c.wrapping_add(8)) == 0 || old(self).mem.bytes().len() == 0,
            decreases fuel,
        {
            let ghost was_fresh = fresh;
            proof {
                fresh = false;
            }
            fuel = fuel - 1;
            cur = self.suffix(cur);
            let s;
            if let Some(state) = *s1 {
                s = state;
                *s1 = None;
            } else if self.num_stats(cur) != 0 {
                let sym = self.sym(self.found_state);
                s = match self.find_state(cur, sym) {
                    Some(x) => x,
                    None => return None,
                };
                let f = self.freq(s);
                if f < (MAX_FREQ - 9) as u32 {
                    self.set_freq(s, (f + 1) as u8);
                    let summ = (self.summ_freq(cur) as u16).wrapping_add(1);
                    self.set_summ_freq(cur, summ);
                }
            } else {
                s = self.single_state(cur);
                let f = self.freq(s);
                let suffix_binary = self.num_stats(self.suffix(cur)) == 0;
                let add: u32 = if suffix_binary && f < 24 {
                    1
                } else {
                    0
                };
                self.set_freq(s, (f + add) as u8);
            }
            let successor = self.successor(s);
            if successor != up_branch {
                cur = successor;
                if ps.len() == 0 {
                    return Some(cur);
                }
                break;
            } else {
                if ps.len() > PPMD8_MAX_ORDER as usize {
                    return None;
                }
                ps.push(s);
            }
        }
        let new_sym = self.mem.rd8(up_branch) as u32;
        let up_branch = up_branch.wrapping_add(1);
        let flags = hi_bits_flag4(self.sym(self.found_state)) + hi_bits_flag3(new_sym);
        let new_freq: u8 = if self.num_stats(cur) == 0 {
            self.freq(self.single_state(cur)) as u8
        } else {
            let s = match self.find_state(cur, new_sym) {
                Some(x) => x,
                None => return None,
            };
            let cf = self.freq(s).wrapping_sub(1);
            let s0 = self.summ_freq(cur).wrapping_sub(self.num_stats(cur)).wrapping_sub(cf);
            let v: u32 = if cf.wrapping_mul(2) <= s0 {
                if cf.wrapping_mul(5) > s0 {
                    1
                } else {
                    0
                }
            } else {
                if s0 == 0 {
                    return None;
                }
                cf.wrapping_add(s0.wrapping_mul(2)).wrapping_sub(3) / s0
            };
            (v as u8).wrapping_add(1)
        };
        if ps.len() == 0 {
            return Some(cur);
        }
        let ghost one_made = one_context_made(*old(self), skip, c);
        let ghost up0 = old(self).mem.spec_rd32(old(self).found_state.wrapping_add(2));
        let ghost b0 = (old(self).hi_unit - 12) as u32;
        let ghost mut fresh3 = true;
        proof {
            if one_made {
                assert(fresh);
                assert(ps@ == seq![old(self).found_state]);
            }
        }
        while ps.len() > 0
            invariant
                model_frame(*old(self), *self),
                alloc_frame(*old(self), *self),
                *s1 is None || *s1 == *old(s1),
                flags < 256,
                one_made == one_context_made(*old(self), skip, c),
                up0 == old(self).mem.spec_rd32(old(self).found_state.wrapping_add(2)),
                b0 == (old(self).hi_unit - 12) as u32,
                one_made ==> new_sym == old(self).mem.spec_rd8(up0) && up_branch == up0.wrapping_add(1),
                one_made && old(self).mem.spec_rd8(c) == 0 ==> new_freq == old(self).mem.spec_rd8(c.wrapping_add(2).wrapping_add(1)),
                one_made && old(self).mem.spec_rd8(c) != 0 ==> exists|k: int|
                    first_state_of(*old(self), c, new_sym as u8, k) && new_freq == estimated_freq(
                        *old(self),
                        c,
                        #[trigger] state_offset(old(self).mem.spec_rd32(c.wrapping_add(4)), k),
                    ),
                one_made && fresh3 ==> *self == *old(self) && ps@ == seq![old(self).found_state] && cur == c,
                one_made && !fresh3 ==> ps.len() == 0 && cur == b0 && self.hi_unit == b0 && self.mem.spec_rd8(b0) == 0
                    && self.mem.spec_rd8((b0 + 2) as u32) == new_sym && self.mem.spec_rd32((b0 + 4) as u32) == up_branch
                    && self.mem.spec_rd8((b0 + 3) as u32) == new_freq
                    && self.mem.spec_rd32((b0 + 8) as u32) == c && self.mem.spec_rd32(
                    old(self).found_state.wrapping_add(2),
                ) == b0,
                !(skip != 0 && old(self).mem.spec_rd32(c.wrapping_add(8)) == 0 && old(self).mem.spec_rd8(c) == 0),
                old(self).mem.spec_rd32(c.wrapping_add(8)) != 0 && old(self).mem.bytes().len() > 0 && *old(s1) is Some
                    ==> *s1 is None,
                skip != 0 && old(self).mem.spec_rd32(c.wrapping_add(8)) != 0 && old(self).mem.bytes().len() > 0 ==> (*old(
                    s1) matches Some(st) ==> old(self).mem.spec_rd32(st.wrapping_add(2)) == old(self).mem.spec_rd32(
                    old(self).found_state.wrapping_add(2))),
            decreases ps.len(),
        {
            let c1 = if self.hi_unit != self.lo_unit {
                self.hi_unit = self.hi_unit.wrapping_sub(super::UNIT_SIZE);
                self.hi_unit
            } else if self.free_list[0] != 0 {
                self.remove_node(0)
            } else {
                match self.alloc_units_rare(0) {
                    Some(x) => x,
                    None => return None,
                }
            };
            let ghost was_fresh3 = fresh3;
            proof {
                fresh3 = false;
            }
            self.set_flags(c1, flags as u8);
            self.set_num_stats(c1, 0);
            let ghost m2 = self.mem.bytes();
            let one = self.single_state(c1);
            self.set_sym(one, new_sym as u8);
            let ghost m3 = self.mem.bytes();
            self.set_freq(one, new_freq);
            let ghost m4 = self.mem.bytes();
            self.set_successor(one, up_branch);
            let ghost m5 = self.mem.bytes();
            self.set_suffix(c1, cur);
            let ghost m6 = self.mem.bytes();
            let st = ps.pop().unwrap();
            self.set_successor(st, c1);
            proof {
                if one_made && was_fresh3 {
                    let m7 = self.mem.bytes();
                    let bb = b0 as int;
                    let fs2 = old(self).found_state.wrapping_add(2) as int;
                    assert(c1 == b0);
                    assert(st == old(self).found_state);
                    assert(m2[bb] == 0);
                    assert(m7[bb] == m6[bb] && m6[bb] == m5[bb] && m5[bb] == m4[bb] && m4[bb] == m3[bb] && m3[bb] == m2[bb]);
                    assert(m3[bb + 2] == new_sym as u8);
                    assert(m4[bb + 3] == new_freq);
                    assert(m7[bb + 3] == m6[bb + 3] && m6[bb + 3] == m5[bb + 3] && m5[bb + 3] == m4[bb + 3]);
                    assert(m7[bb + 2] == m6[bb + 2] && m6[bb + 2] == m5[bb + 2] && m5[bb + 2] == m4[bb + 2] && m4[bb + 2] == m3[bb + 2]);
                    assert(le32(m5, bb + 4) == up_branch as int);
                    assert(m7[bb + 4] == m5[bb + 4] && m7[bb + 5] == m5[bb + 5] && m7[bb + 6] == m5[bb + 6] && m7[bb + 7] == m5[bb + 7]);
                    assert(le32(m6, bb + 8) == c as int);
                    assert(m7[bb + 8] == m6[bb + 8] && m7[bb + 9] == m6[bb + 9] && m7[bb + 10] == m6[bb + 10] && m7[bb + 11] == m6[bb + 11]);
                    assert(le32(m7, fs2) == b0 as int);
                }
            }
            cur = c1;
        }
        Some(cur)
    }

    /// Falls back to shorter contexts after the model ran out of longer ones: the
    /// found state and each state of the symbol in the suffixes of `c` that has no
    /// successor yet are pointed at the text, their frequencies raised, until a
    /// state with a successor turns up; contexts are made for it where it points
    /// into the text. `s1`, where it is set, is the state to take in the first
    /// suffix. Returns the context to continue from, or `None` when there is none or
    /// an allocation failed.
    ///
    /// From a `c` without a suffix it returns `c`; where `s1` already leads past the
    /// text it returns that successor. Either way one order fall is counted.
    #[verifier::spinoff_prover]
    #[verifier::rlimit(50)]
    pub fn reduce_order(&mut self, s1: Option<u32>, c: u32) -> (r: Option<u32>)
        requires
            old(self).wf(),
        ensures
            model_frame(*old(self), *final(self)),
            final(self).min_context == old(self).min_context,
            final(self).max_context == old(self).max_context,
            final(self).found_state == old(self).found_state,
            ({
                let fs2 = old(self).found_state.wrapping_add(2);
                let c8 = c.wrapping_add(8);
                s1 is None && old(self).mem.bytes().len() > 0 && old(self).mem.spec_rd32(c8) == 0 && (fs2 + 4 <= c8 || c8
                    + 4 <= fs2) ==> {
                    &&& r == Some(c)
                    &&& *final(self) == (Ppmd8 { mem: final(self).mem, order_fall: old(self).order_fall.wrapping_add(1), ..*old(self) })
                    &&& fits(fs2, 4, old(self).mem.bytes().len()) ==> final(self).mem.spec_rd32(fs2) == old(self).text
                    &&& same_outside(old(self).mem.bytes(), final(self).mem.bytes(), fs2 as int, 4)
                }
            }),
            s1 matches Some(st) ==> (old(self).mem.bytes().len() > 0 && old(self).mem.spec_rd32(st.wrapping_add(2))
                > old(self).text && (old(self).found_state.wrapping_add(2) + 4 <= st.wrapping_add(2) || st.wrapping_add(2) + 4
                <= old(self).found_state.wrapping_add(2)) ==> fell_back_to(
                *old(self),
                *final(self),
                r,
                c,
                old(self).mem.spec_rd32(st.wrapping_add(2)),
            )),
            run_kept(*old(self), *final(self)),
            binary_suffix_step(*old(self), s1, c) ==> ({
                let one = old(self).mem.spec_rd32(c.wrapping_add(8)).wrapping_add(2);
                let f = old(self).mem.spec_rd8(one.wrapping_add(1));
                &&& fell_back_to(*old(self), *final(self), r, c, old(self).mem.spec_rd32(one.wrapping_add(2)))
                &&& final(self).mem.spec_rd8(one.wrapping_add(1)) == (if f < 32 { (f + 1) as u8 } else { f })
            }),
            counted_suffix_step(*old(self), s1, c) ==> ({
                let c2 = old(self).mem.spec_rd32(c.wrapping_add(8));
                let st = old(self).mem.spec_rd32(c2.wrapping_add(4));
                &&& fell_back_to(*old(self), *final(self), r, c, old(self).mem.spec_rd32((st + 2) as u32))
                &&& final(self).mem.spec_rd8((st + 1) as u32) == old(self).mem.spec_rd8((st + 1) as u32) + 2
                &&& final(self).mem.spec_rd16(c2.wrapping_add(2)) == (old(self).mem.spec_rd16(c2.wrapping_add(2)) as u16).wrapping_add(2)
            }),
    {
        let mut s1_cur = s1;
        let mut cur = c;
        let c1 = cur;
        let up_branch = self.text;
        let fs = self.found_state;
        let ghost m0 = self.mem.bytes();
        self.set_successor(fs, up_branch);
        self.order_fall = self.order_fall.wrapping_add(1);
        proof {
            let fs2 = fs.wrapping_add(2) as int;
            let c8 = c.wrapping_add(8) as int;
            let m1 = self.mem.bytes();
            if fs2 + 4 <= c8 || c8 + 4 <= fs2 {
                if fits(c.wrapping_add(8), 4, m1.len()) {
                    assert(m1[c8] == m0[c8] && m1[c8 + 1] == m0[c8 + 1] && m1[c8 + 2] == m0[c8 + 2] && m1[c8 + 3] == m0[c8 + 3]);
                }
                assert(self.mem.spec_rd32(c.wrapping_add(8)) == old(self).mem.spec_rd32(c.wrapping_add(8)));
            }
            if fits(fs.wrapping_add(2), 4, m1.len()) {
                assert(self.mem.spec_rd32(fs.wrapping_add(2)) == up_branch);
            }
            if let Some(st) = s1 {
                let st2 = st.wrapping_add(2);
                if fs2 + 4 <= st2 || st2 + 4 <= fs2 {
                    super::units::lemma_rd32_kept(old(self).mem, self.mem, fs2, st2);
                }
            }
            if counted_suffix_step(*old(self), s1, c) {
                let c2 = old(self).mem.spec_rd32(c.wrapping_add(8));
                let st = old(self).mem.spec_rd32(c2.wrapping_add(4));
                let ci = c2 as int;
                let si = st as int;
                assert(c2.wrapping_add(4) == c2 + 4 && c2.wrapping_add(2) == c2 + 2);
                super::units::lemma_rd32_kept(old(self).mem, self.mem, fs2, c.wrapping_add(8));
                super::units::lemma_rd32_kept(old(self).mem, self.mem, fs2, (c2 + 4) as u32);
                super::units::lemma_rd32_kept(old(self).mem, self.mem, fs2, (st + 2) as u32);
                assert(m1[ci] == m0[ci] && m1[ci + 2] == m0[ci + 2] && m1[ci + 3] == m0[ci + 3]);
                assert(m1[si] == m0[si] && m1[si + 1] == m0[si + 1]);
                assert(m1[fs as int] == m0[fs as int]);
            }
            if binary_suffix_step(*old(self), s1, c) {
                let c2 = old(self).mem.spec_rd32(c.wrapping_add(8));
                let ci = c2 as int;
                assert(c2.wrapping_add(2) == c2 + 2);
                assert(c2.wrapping_add(2).wrapping_add(1) == c2 + 3);
                assert(c2.wrapping_add(2).wrapping_add(2) == c2 + 4);
                super::units::lemma_rd32_kept(old(self).mem, self.mem, fs2, c.wrapping_add(8));
                super::units::lemma_rd32_kept(old(self).mem, self.mem, fs2, (c2 + 4) as u32);
                assert(m1[ci] == m0[ci] && m1[ci + 3] == m0[ci + 3]);
            }
        }
        let ghost snap = *self;
        let ghost st0 = match s1 {
            Some(x) => x,
            None => 0,
        };
        let ghost taken = s1 is Some && old(self).mem.bytes().len() > 0 && old(self).mem.spec_rd32(st0.wrapping_add(2))
            > old(self).text && (fs.wrapping_add(2) + 4 <= st0.wrapping_add(2) || st0.wrapping_add(2) + 4 <= fs.wrapping_add(
            2));
        let ghost fs2 = fs.wrapping_add(2);
        let ghost c8 = c.wrapping_add(8);
        let ghost base = s1 is None && old(self).mem.bytes().len() > 0 && old(self).mem.spec_rd32(c8) == 0 && (fs2 + 4 <= c8
            || c8 + 4 <= fs2);
        let ghost mut fresh = true;
        let ghost bstep = binary_suffix_step(*old(self), s1, c);
        let ghost c2 = old(self).mem.spec_rd32(c.wrapping_add(8));
        let ghost cstep = counted_suffix_step(*old(self), s1, c);
        let ghost st1 = old(self).mem.spec_rd32(c2.wrapping_add(4));
        let mut s: u32 = 0;
        let mut fuel: usize = self.mem.len();
        loop
            invariant_except_break
                !fresh ==> !taken,
                !fresh ==> !bstep,
                !fresh ==> !cstep,
            invariant
                model_frame(*old(self), *self),
                run_kept(*old(self), *self),
                self.min_context == old(self).min_context,
                self.max_context == old(self).max_context,
                self.found_state == old(self).found_state,
                fresh ==> *self == snap && cur == c && s1_cur == s1 && fuel == old(self).mem.bytes().len(),
                snap == (Ppmd8 { mem: snap.mem, order_fall: old(self).order_fall.wrapping_add(1), ..*old(self) }),
                taken == (s1 is Some && old(self).mem.bytes().len() > 0 && old(self).mem.spec_rd32(st0.wrapping_add(2))
                    > old(self).text && (fs2 + 4 <= st0.wrapping_add(2) || st0.wrapping_add(2) + 4 <= fs2)),
                s1 matches Some(x) ==> st0 == x,
                taken ==> snap.mem.spec_rd32(st0.wrapping_add(2)) == old(self).mem.spec_rd32(st0.wrapping_add(2)),
                up_branch == old(self).text,
                c1 == c,
                fs == old(self).found_state,
                snap.order_fall == old(self).order_fall.wrapping_add(1),
                snap.text == old(self).text,
                snap.mem.bytes().len() == old(self).mem.bytes().len(),
                fits(fs2, 4, old(self).mem.bytes().len()) ==> snap.mem.spec_rd32(fs2) == old(self).text,
                base ==> snap.mem.spec_rd32(c8) == 0,
                same_outside(old(self).mem.bytes(), snap.mem.bytes(), fs2 as int, 4),
                fs2 == old(self).found_state.wrapping_add(2),
                c8 == c.wrapping_add(8),
                base == (s1 is None && old(self).mem.bytes().len() > 0 && old(self).mem.spec_rd32(c8) == 0 && (fs2 + 4 <= c8
                    || c8 + 4 <= fs2)),
                !fresh ==> !base,
                bstep == binary_suffix_step(*old(self), s1, c),
                cstep == counted_suffix_step(*old(self), s1, c),
                st1 == old(self).mem.spec_rd32(c2.wrapping_add(4)),
                cstep ==> snap.mem.spec_rd32(c8) == c2 && snap.mem.spec_rd8(c2) == old(self).mem.spec_rd8(c2)
                    && snap.mem.spec_rd32(c2.wrapping_add(4)) == st1 && snap.mem.spec_rd8(st1) == old(self).mem.spec_rd8(st1)
                    && snap.mem.spec_rd8(fs) == old(self).mem.spec_rd8(fs) && snap.mem.spec_rd8((st1 + 1) as u32)
                    == old(self).mem.spec_rd8((st1 + 1) as u32) && snap.mem.spec_rd32((st1 + 2) as u32) == old(self).mem.spec_rd32(
                    (st1 + 2) as u32,
                ) && snap.mem.spec_rd16(c2.wrapping_add(2)) == old(self).mem.spec_rd16(c2.wrapping_add(2)),
                c2 == old(self).mem.spec_rd32(c.wrapping_add(8)),
                bstep ==> snap.mem.spec_rd32(c8) == c2 && snap.mem.spec_rd8(c2) == 0 && snap.mem.spec_rd8((c2 + 3) as u32)
                    == old(self).mem.spec_rd8((c2 + 3) as u32) && snap.mem.spec_rd32((c2 + 4) as u32) == old(self).mem.spec_rd32(
                    (c2 + 4) as u32,
                ) && c2 + 8 <= snap.mem.bytes().len(),
            ensures
                !base,
                taken ==> s == st0 && *self == snap,
                cstep ==> s == st1 && *self == (Ppmd8 { mem: self.mem, ..snap }) && self.mem.spec_rd8((st1 + 1) as u32)
                    == old(self).mem.spec_rd8((st1 + 1) as u32) + 2 && self.mem.spec_rd32((st1 + 2) as u32) == old(
                    self,
                ).mem.spec_rd32((st1 + 2) as u32) && self.mem.spec_rd16(c2.wrapping_add(2)) == (old(self).mem.spec_rd16(
                    c2.wrapping_add(2),
                ) as u16).wrapping_add(2) && (fits(fs2, 4, old(self).mem.bytes().len()) ==> self.mem.spec_rd32(fs2)
                    == old(self).text),
                bstep ==> s == c2.wrapping_add(2) && *self == (Ppmd8 { mem: self.mem, ..snap }) && self.mem.bytes()
                    == snap.mem.bytes().update(c2 + 3, self.mem.spec_rd8((c2 + 3) as u32)) && self.mem.spec_rd8((c2 + 3) as u32) == (
                if old(self).mem.spec_rd8((c2 + 3) as u32) < 32 {
                    (old(self).mem.spec_rd8((c2 + 3) as u32) + 1) as u8
                } else {
                    old(self).mem.spec_rd8((c2 + 3) as u32)
                }),
            decreases fuel,
        {
            let ghost was_fresh = fresh;
            proof {
                fresh = false;
            }
            if fuel == 0 {
                return None;
            }
            fuel = fuel - 1;
            if let Some(state) = s1_cur {
                cur = self.suffix(cur);
                s = state;
                s1_cur = None;
            } else {
                if self.suffix(cur) == 0 {
                    return Some(cur);
                }
                cur = self.suffix(cur);
                if self.num_stats(cur) != 0 {
                    let sym = self.sym(self.found_state);
                    proof {
                        if was_fresh && cstep {
                            assert(crate::ppmd8::grow::state_offset(st1, 0) == st1);
                            assert(self.mem.spec_rd8(state_offset(st1, 0)) == sym);
                        }
                    }
                    s = match self.find_state(cur, sym) {
                        Some(x) => x,
                        None => return None,
                    };
                    let ghost ma = self.mem.bytes();
                    let f = self.freq(s);
                    if f < (MAX_FREQ - 9) as u32 {
                        self.set_freq(s, (f + 2) as u8);
                        let ghost mb = self.mem.bytes();
                        let summ = (self.summ_freq(cur) as u16).wrapping_add(2);
                        self.set_summ_freq(cur, summ);
                        proof {
                            if was_fresh && cstep {
                                let m = self.mem.bytes();
                                let si = st1 as int;
                                assert(s == st1);
                                assert(s.wrapping_add(1) == st1 + 1 && s.wrapping_add(2) == st1 + 2);
                                assert(m[si + 1] == mb[si + 1]);
                                assert(mb[si + 2] == ma[si + 2] && mb[si + 3] == ma[si + 3] && mb[si + 4] == ma[si + 4]
                                    && mb[si + 5] == ma[si + 5]);
                                assert(m[si + 2] == mb[si + 2] && m[si + 3] == mb[si + 3] && m[si + 4] == mb[si + 4]
                                    && m[si + 5] == mb[si + 5]);
                                let f2 = fs2 as int;
                                if fits(fs2, 4, m.len()) {
                                    assert(m[f2] == ma[f2] && m[f2 + 1] == ma[f2 + 1] && m[f2 + 2] == ma[f2 + 2] && m[f2 + 3]
                                        == ma[f2 + 3]);
                                }
                            }
                        }
                    }
                } else {
                    s = self.single_state(cur);
                    let f = self.freq(s);
                    let add: u32 = if f < 32 {
                        1
                    } else {
                        0
                    };
                    self.set_freq(s, (f + add) as u8);
                }
            }
            if self.successor(s) != 0 {
                break;
            }
            self.set_successor(s, up_branch);
            self.order_fall = self.order_fall.wrapping_add(1);
        }
        if self.successor(s) <= up_branch {
            let s2 = self.found_state;
            self.found_state = s;
            let mut none: Option<u32> = None;
            match self.create_successors(0, &mut none, cur) {
                None => self.set_successor(s, 0),
                Some(successor) => self.set_successor(s, successor),
            }
            self.found_state = s2;
        }
        let successor = self.successor(s);
        if self.order_fall == 1 && c1 == self.max_context {
            let fs = self.found_state;
            self.set_successor(fs, successor);
            self.text = self.text.wrapping_sub(1);
        }
        if successor == 0 {
            return None;
        }
        Some(successor)
    }

    /// Counts the found symbol once more in the suffix of the current context, where
    /// the found state is rare (below a quarter of the frequency limit) and the
    /// context has a suffix: a suffix of one state gains 1 up to 32; in a suffix of
    /// several states the found symbol's state moves ahead of its neighbour where it
    /// is not below it, and gains 2, as does the suffix's sum, below the limit less 9.
    /// Returns that state of the suffix (`None` inside where nothing is counted), or
    /// `None` where the suffix lacks the symbol.
    #[verifier::spinoff_prover]
    #[verifier::rlimit(40)]
    pub fn raise_in_suffix(&mut self) -> (r: Option<Option<u32>>)
        requires
            old(self).wf(),
        ensures
            model_frame(*old(self), *final(self)),
            mem_only(*old(self), *final(self)),
            !((old(self).mem.spec_rd8(old(self).found_state.wrapping_add(1)) as u32) < (MAX_FREQ / 4) as u32
                && old(self).mem.spec_rd32(old(self).min_context.wrapping_add(8)) != 0) ==> *final(self) == *old(self) && r
                == Some(None::<u32>),
            suffix_raise_case(*old(self)) ==> (r matches Some(Some(st)) && suffix_raised(*old(self), *final(self), st)),
            single_suffix_case(*old(self)) ==> ({
                let m0 = old(self).mem.bytes();
                let c = le32(m0, old(self).min_context + 8);
                let f = m0[c + 3];
                &&& r == Some(Some((c + 2) as u32))
                &&& *final(self) == (Ppmd8 { mem: final(self).mem, ..*old(self) })
                &&& final(self).mem.bytes() == (if f < 32 { m0.update(c + 3, (f + 1) as u8) } else { m0 })
            }),
    {
        let ghost case = suffix_raise_case(*old(self));
        let ghost m0 = self.mem.bytes();
        let fs = self.found_state;
        let f_freq = self.freq(fs);
        let mut s: Option<u32> = None;
        if f_freq < (MAX_FREQ / 4) as u32 && self.suffix(self.min_context) != 0 {
            let c = self.suffix(self.min_context);
            proof {
                if case || single_suffix_case(*old(self)) {
                    let mci = old(self).min_context as int;
                    assert(old(self).min_context.wrapping_add(8) as int == mci + 8);
                    assert(c as int == le32(m0, mci + 8));
                    assert(c.wrapping_add(2) as int == c + 2);
                    assert(c.wrapping_add(4) as int == c + 4);
                }
            }
            if self.num_stats(c) == 0 {
                let st = self.single_state(c);
                let f = self.freq(st);
                if f < 32 {
                    self.set_freq(st, (f + 1) as u8);
                }
                s = Some(st);
            } else {
                let sym = self.sym(fs);
                let mut st = self.stats(c);
                let ghost stats = st as int;
                let ghost n = m0[c as int] as int;
                let ghost k = first_with_sym(m0, stats, n, sym as u8);
                proof {
                    if case {
                        assert(sym == m0[fs as int]);
                        assert(stats == le32(m0, c + 4));
                        lemma_first_with_sym(m0, stats, n, sym as u8);
                    }
                }
                if self.sym(st) != sym {
                    st = match self.find_state(c, sym) {
                        Some(x) => x,
                        None => {
                            proof {
                                if case {
                                    assert(state_offset(stats as u32, k) as int == stats + 6 * k);
                                    assert(self.mem.spec_rd8(state_offset(stats as u32, k)) != sym);
                                }
                            }
                            return None;
                        },
                    };
                    proof {
                        if case {
                            assert(st as int == stats + 6 * k && k >= 1) by {
                            let kk = choose|kk: int|
                                0 <= kk < 256 && st == #[trigger] state_offset(stats as u32, kk) && self.mem.spec_rd8(st) == sym && forall|j: int|
                                    0 <= j < kk ==> self.mem.spec_rd8(#[trigger] state_offset(stats as u32, j)) != sym;
                            assert(state_offset(stats as u32, k) as int == stats + 6 * k);
                            if kk > k {
                                assert(self.mem.spec_rd8(state_offset(stats as u32, k)) != sym);
                            }
                            if kk < k {
                                assert(state_offset(stats as u32, kk) as int == stats + 6 * kk);
                                assert(m0[stats + 6 * kk] != sym);
                            }
                            assert(kk == k);
                            }
                        }
                    }
                    let prev = st.wrapping_sub(STATE_SIZE);
                    if self.freq(st) >= self.freq(prev) {
                        self.swap_states(st, prev);
                        st = prev;
                    }
                } else {
                    proof {
                        if case {
                            assert(k == 0) by {
                                if k > 0 {
                                    assert(m0[stats + 6 * 0] != sym);
                                }
                            }
                        }
                    }
                }
                let ghost m_sw = self.mem.bytes();
                proof {
                    if case {
                        assert(st.wrapping_add(1) as int == st + 1);
                    }
                }
                let f = self.freq(st);
                if f < (MAX_FREQ - 9) as u32 {
                    self.set_freq(st, (f + 2) as u8);
                    let summ = (self.summ_freq(c) as u16).wrapping_add(2);
                    self.set_summ_freq(c, summ);
                }
                proof {
                    if case {
                        lemma_suffix_raised(*old(self), *self, m_sw, st);
                    }
                }
                s = Some(st);
            }
        }
        Some(s)
    }

    /// Adds the found symbol to the contexts that lacked it, and moves on to the
    /// context that follows it: the found state's frequency is raised in the suffix
    /// of the current context, the symbol is written to the text, contexts are made
    /// or found for the orders that follow, and each context from the longest down
    /// to the current one gets a new state for the symbol, with a frequency
    /// estimated from the one it had in the current context. Where memory runs out
    /// the model is restored instead.
    #[verifier::spinoff_prover]
    #[verifier::rlimit(60)]
    pub fn update_model(&mut self)
        requires
            old(self).wf(),
        ensures
            model_frame(*old(self), *final(self)),
            final(self).min_context == final(self).max_context,
            final(self).run_length == final(self).init_rl || run_kept(*old(self), *final(self)),
            old(self).restore_method == RestoreMethod::Restart && !(old(self).order_fall == 0 && old(self).mem.spec_rd32(
                old(self).found_state.wrapping_add(2),
            ) != 0) && old(self).text.wrapping_add(1) >= old(self).units_start ==> final(self).started(),
            first_text_step(*old(self)) ==> text_step_taken(*old(self), *final(self)),
            one_escape_step(*old(self)) ==> one_escape_taken(*old(self), *final(self)),
    {
        let ghost ftx = first_text_step(*old(self));
        let ghost esc1 = one_escape_step(*old(self));
        let fs = self.found_state;
        let mut min_successor = self.successor(fs);
        let f_freq = self.freq(fs);
        let f_symbol = self.sym(fs);
        let mut s: Option<u32> = match self.raise_in_suffix() {
            Some(x) => x,
            None => {
                let mc = self.max_context;
                self.restore_model(mc);
                return;
            },
        };
        let mut c = self.max_context;
        if self.order_fall == 0 && min_successor != 0 {
            let mc = self.min_context;
            match self.create_successors(1, &mut s, mc) {
                None => {
                    let fs = self.found_state;
                    self.set_successor(fs, 0);
                    self.restore_model(c);
                },
                Some(cs) => {
                    let fs = self.found_state;
                    self.set_successor(fs, cs);
                    self.max_context = cs;
                    self.min_context = cs;
                },
            }
            return;
        }
        let t = self.text;
        let sym_now = self.sym(self.found_state);
        let ghost pre_text = *self;
        self.mem.wr8(t, sym_now as u8);
        proof {
            if first_text_step(*old(self)) {
                assert(*self == (Ppmd8 { mem: self.mem, ..*old(self) }));
                let c8 = old(self).min_context.wrapping_add(8);
                let fs2 = old(self).found_state.wrapping_add(2);
                let m = self.mem.bytes();
                let m0 = old(self).mem.bytes();
                assert(m[c8 as int] == m0[c8 as int] && m[c8 + 1] == m0[c8 + 1] && m[c8 + 2] == m0[c8 + 2] && m[c8 + 3] == m0[c8 + 3]);
                assert(self.mem.spec_rd32(c8) == 0);
                assert(self.mem.spec_rd8(t) == old(self).mem.spec_rd8(old(self).found_state));
                assert(min_successor == 0);
                assert(s is None);
                assert(c == old(self).min_context);
            }
        }
        proof {
            if esc1 {
                let m0 = old(self).mem.bytes();
                assert(*self == (Ppmd8 { mem: self.mem, ..*old(self) }));
                assert(self.mem.bytes() == m0.update(t as int, m0[old(self).found_state as int]));
                assert(old(self).found_state.wrapping_add(1) as int == old(self).found_state + 1);
                assert(old(self).found_state.wrapping_add(2) as int == old(self).found_state + 2);
                assert(min_successor as int == le32(m0, old(self).found_state + 2));
                assert(f_freq == m0[old(self).found_state + 1]);
                assert(f_symbol == m0[old(self).found_state as int]);
                assert(s is None);
                assert(c == old(self).max_context);
            }
        }
        self.text = t.wrapping_add(1);
        if self.text >= self.units_start {
            self.restore_model(c);
            return;
        }
        let mut max_successor = self.text;
        if min_successor == 0 {
            let mc = self.min_context;
            let ghost pre_reduce = *self;
            let r = self.reduce_order(s, mc);
            proof {
                if ftx {
                    let fs2 = old(self).found_state.wrapping_add(2);
                    let c8 = mc.wrapping_add(8);
                    assert(pre_reduce.mem.spec_rd32(c8) == 0);
                    assert(r == Some(mc));
                    let m = self.mem.bytes();
                    let mp = pre_reduce.mem.bytes();
                    assert(m[t as int] == mp[t as int]);
                    assert(self.mem.spec_rd8(t) == old(self).mem.spec_rd8(old(self).found_state));
                    assert(self.mem.spec_rd32(fs2) == old(self).text + 1);
                    let m0 = old(self).mem.bytes();
                    assert forall|j: int|
                        0 <= j < m0.len() && j != old(self).text && !(fs2 <= j < fs2 + 4) implies #[trigger] m[j] == m0[j] by {
                        assert(m[j] == mp[j]);
                        assert(mp[j] == m0[j]);
                    }
                }
            }
            match r {
                None => {
                    self.restore_model(c);
                    return;
                },
                Some(cs) => min_successor = cs,
            }
        } else if !self.is_real_context(min_successor) {
            let mc = self.min_context;
            match self.create_successors(0, &mut s, mc) {
                None => {
                    self.restore_model(c);
                    return;
                },
                Some(cs) => min_successor = cs,
            }
        }
        self.order_fall = self.order_fall.wrapping_sub(1);
        if self.order_fall == 0 {
            max_successor = min_successor;
            if self.max_context != self.min_context {
                self.text = self.text.wrapping_sub(1);
            }
        }
        let flag = hi_bits_flag3(f_symbol);
        let ns = self.num_stats(self.min_context);
        let s0 = self.summ_freq(self.min_context).wrapping_sub(ns).wrapping_sub(f_freq);
        let mut fuel: usize = self.mem.len();
        let ghost mut first = true;
        proof {
            if esc1 {
                let m0 = old(self).mem.bytes();
                let mc = old(self).min_context as int;
                assert(old(self).min_context.wrapping_add(2) as int == mc + 2);
                assert(ns == m0[mc]);
                assert(self.mem.bytes()[mc + 2] == m0[mc + 2] && self.mem.bytes()[mc + 3] == m0[mc + 3]);
                assert(s0 == (le16(m0, mc + 2) as u32).wrapping_sub(m0[mc] as u32).wrapping_sub(f_freq));
            }
        }
        while c != self.min_context && fuel > 0
            invariant
                esc1 == one_escape_step(*old(self)),
                esc1 ==> ({
                    let m0 = old(self).mem.bytes();
                    let fsi = old(self).found_state as int;
                    let succ = le32(m0, fsi + 2);
                    &&& f_freq == m0[fsi + 1]
                    &&& f_symbol == m0[fsi]
                    &&& flag == (if f_symbol >= 0x40 { 8u32 } else { 0u32 })
                    &&& ns == m0[old(self).min_context as int]
                    &&& s0 == (le16(m0, old(self).min_context + 2) as u32).wrapping_sub(ns).wrapping_sub(f_freq)
                    &&& min_successor == succ
                    &&& max_successor == (if old(self).order_fall == 1 { succ } else { old(self).text + 1 })
                }),
                esc1 && first ==> ({
                    let m0 = old(self).mem.bytes();
                    &&& c == old(self).max_context
                    &&& fuel > 0
                    &&& self.mem.bytes() == m0.update(old(self).text as int, m0[old(self).found_state as int])
                    &&& *self == (Ppmd8 {
                        mem: self.mem,
                        text: (if old(self).order_fall == 1 { old(self).text as int } else { old(self).text + 1 }) as u32,
                        order_fall: (old(self).order_fall - 1) as u32,
                        ..*old(self)
                    })
                }),
                esc1 && !first ==> c == self.min_context && one_escape_taken(
                    *old(self),
                    (Ppmd8 { min_context: min_successor, max_context: min_successor, ..*self }),
                ),
                ftx == first_text_step(*old(self)),
                ftx ==> {
                    &&& c == self.min_context
                    &&& min_successor == old(self).min_context
                    &&& *self == (Ppmd8 { mem: self.mem, text: (old(self).text + 1) as u32, ..*old(self) })
                    &&& self.mem.spec_rd8(old(self).text) == old(self).mem.spec_rd8(old(self).found_state)
                    &&& self.mem.spec_rd32(old(self).found_state.wrapping_add(2)) == old(self).text + 1
                    &&& self.mem.bytes().len() == old(self).mem.bytes().len()
                    &&& forall|j: int|
                        0 <= j < old(self).mem.bytes().len() && j != old(self).text && !(old(self).found_state.wrapping_add(2)
                            <= j < old(self).found_state.wrapping_add(2) + 4) ==> #[trigger] self.mem.bytes()[j] == old(
                            self,
                        ).mem.bytes()[j]
                },
                model_frame(*old(self), *self),
                run_kept(*old(self), *self),
                f_freq < 256,
                f_symbol < 256,
                flag <= 8,
            decreases fuel,
        {
            let ghost was_first = first;
            proof {
                first = false;
            }
            let ghost m_start = self.mem.bytes();
            let ghost here = *self;
            fuel = fuel - 1;
            let mut sum: u32;
            let ns1 = self.num_stats(c);
            proof {
                if esc1 && was_first {
                    let m0 = old(self).mem.bytes();
                    let ci = c as int;
                    assert(m_start[ci] == m0[ci]);
                    assert(m_start[ci + 1] == m0[ci + 1] && m_start[ci + 2] == m0[ci + 2] && m_start[ci + 3] == m0[ci + 3]);
                    assert(m_start[ci + 4] == m0[ci + 4] && m_start[ci + 5] == m0[ci + 5] && m_start[ci + 6] == m0[ci + 6]
                        && m_start[ci + 7] == m0[ci + 7]);
                    assert(m_start[ci + 8] == m0[ci + 8] && m_start[ci + 9] == m0[ci + 9] && m_start[ci + 10] == m0[ci + 10]
                        && m_start[ci + 11] == m0[ci + 11]);
                    assert(c.wrapping_add(2) as int == ci + 2);
                    assert(c.wrapping_add(4) as int == ci + 4);
                    assert(c.wrapping_add(8) as int == ci + 8);
                }
            }
            if ns1 != 0 {
                if ns1 % 2 == 1 {
                    let old_nu = (ns1 + 1) / 2;
                    if old_nu >= 128 {
                        self.restore_model(c);
                        return;
                    }
                    let i = self.units2index[(old_nu - 1) as usize] as u32;
                    if i != self.units2index[old_nu as usize] as u32 {
                        proof {
                            lemma_units2index_monotone(self.units2index@, old_nu - 1, old_nu as int);
                        }
                        let ptr = match self.alloc_units(i + 1) {
                            Some(p) => p,
                            None => {
                                self.restore_model(c);
                                return;
                            },
                        };
                        let old_ptr = self.stats(c);
                        self.mem.copy(old_ptr, ptr, old_nu * UNIT_SIZE);
                        self.insert_node(old_ptr, i);
                        self.set_stats(c, ptr);
                    }
                }
                let more: u32 = if 3 * ns1 + 1 < ns {
                    1
                } else {
                    0
                };
                sum = self.summ_freq(c) + more;
            } else {
                let p = match self.alloc_units(0) {
                    Some(p) => p,
                    None => {
                        self.restore_model(c);
                        return;
                    },
                };
                let one = self.single_state(c);
                let mut freq = self.freq(one);
                let sym = self.sym(one);
                self.set_sym(p, sym as u8);
                let succ = self.successor(one);
                self.set_successor(p, succ);
                self.set_stats(c, p);
                if freq < (MAX_FREQ / 4 - 1) as u32 {
                    freq = freq * 2;
                } else {
                    freq = (MAX_FREQ - 4) as u32;
                }
                self.set_freq(p, freq as u8);
                let more: u32 = if ns > 2 {
                    1
                } else {
                    0
                };
                sum = (freq + more).wrapping_add(self.init_esc);
            }
            let st = self.stats(c).wrapping_add((ns1 + 1) * STATE_SIZE);
            let ghost sum0 = sum;
            let mut cf = sum.wrapping_add(6).wrapping_mul(2).wrapping_mul(f_freq);
            let sf = s0.wrapping_add(sum);
            let ghost w0 = self.mem.bytes();
            self.set_sym(st, f_symbol as u8);
            let ghost w1 = self.mem.bytes();
            self.set_num_stats(c, (ns1 + 1) as u8);
            let ghost w2 = self.mem.bytes();
            self.set_successor(st, max_successor);
            let ghost w3 = self.mem.bytes();
            let fl = self.flags(c) | flag;
            self.set_flags(c, fl as u8);
            let ghost w4 = self.mem.bytes();
            if cf < sf.wrapping_mul(6) {
                let a: u32 = if cf > sf {
                    1
                } else {
                    0
                };
                let b: u32 = if cf >= sf.wrapping_mul(4) {
                    1
                } else {
                    0
                };
                cf = 1 + a + b;
                sum = sum.wrapping_add(4);
            } else {
                let a: u32 = if cf > sf.wrapping_mul(9) {
                    1
                } else {
                    0
                };
                let b: u32 = if cf > sf.wrapping_mul(12) {
                    1
                } else {
                    0
                };
                let d: u32 = if cf > sf.wrapping_mul(15) {
                    1
                } else {
                    0
                };
                cf = 4 + a + b + d;
                sum = sum.wrapping_add(cf);
            }
            let ghost w5_pre = self.mem.bytes();
            self.set_summ_freq(c, sum as u16);
            let ghost w5 = self.mem.bytes();
            self.set_freq(st, cf as u8);
            proof {
                if esc1 && was_first {
                    let m0 = old(self).mem.bytes();
                    let m = self.mem.bytes();
                    let ci = c as int;
                    let si = st as int;
                    let t = old(self).text as int;
                    assert(si == le32(m0, ci + 4) + 6 * (m0[ci] + 1));
                    assert(st.wrapping_add(1) as int == si + 1);
                    assert(st.wrapping_add(2) as int == si + 2);
                    assert(c.wrapping_add(1) as int == ci + 1);
                    assert(c.wrapping_add(2) as int == ci + 2);
                    assert(w5_pre == w4);
                    assert(fl == (m0[ci + 1] as u32 | flag)) by {
                        assert(w3[ci + 1] == w2[ci + 1] && w2[ci + 1] == w1[ci + 1] && w1[ci + 1] == m_start[ci + 1]);
                    }
                    assert(added_state_freq(sum0, s0, f_freq) == (cf, sum));
                    assert(m[si] == f_symbol) by {
                        assert(m[si] == w5[si] && w5[si] == w4[si] && w4[si] == w3[si] && w3[si] == w2[si] && w2[si] == w1[si]);
                    }
                    assert(m[si + 1] == cf as u8);
                    assert(m[si + 2] == w3[si + 2] && m[si + 3] == w3[si + 3] && m[si + 4] == w3[si + 4] && m[si + 5] == w3[si + 5]) by {
                        assert(m[si + 2] == w5[si + 2] && w5[si + 2] == w4[si + 2]);
                        assert(m[si + 3] == w5[si + 3] && w5[si + 3] == w4[si + 3]);
                        assert(m[si + 4] == w5[si + 4] && w5[si + 4] == w4[si + 4]);
                        assert(m[si + 5] == w5[si + 5] && w5[si + 5] == w4[si + 5]);
                    }
                    assert(le32(m, si + 2) == max_successor as int);
                    assert(state_at(m, si) == (f_symbol as u8, cf as u8, max_successor as int));
                    assert(m[ci] == ns1 + 1) by {
                        assert(m[ci] == w5[ci] && w5[ci] == w4[ci] && w4[ci] == w3[ci] && w3[ci] == w2[ci]);
                    }
                    assert(m[ci + 1] == fl as u8) by {
                        assert(m[ci + 1] == w5[ci + 1] && w5[ci + 1] == w4[ci + 1]);
                    }
                    assert(m[ci + 2] == w5[ci + 2] && m[ci + 3] == w5[ci + 3]);
                    assert(le16(m, ci + 2) == (sum as u16) as int);
                    assert(m[t] == m_start[t]) by {
                        assert(m[t] == w5[t] && w5[t] == w4[t] && w4[t] == w3[t] && w3[t] == w2[t] && w2[t] == w1[t] && w1[t] == w0[t]);
                    }
                    assert forall|x: int| 0 <= x < m0.len() && x != t && !(ci <= x < ci + 4) && !(si <= x < si + 6) implies #[trigger] m[x]
                        == m0[x] by {
                        assert(m[x] == w5[x] && w5[x] == w4[x] && w4[x] == w3[x] && w3[x] == w2[x] && w2[x] == w1[x] && w1[x] == w0[x]);
                        assert(w0[x] == m_start[x]);
                    }
                    assert(m[ci + 8] == m0[ci + 8] && m[ci + 9] == m0[ci + 9] && m[ci + 10] == m0[ci + 10] && m[ci + 11] == m0[ci + 11]);
                    assert(c.wrapping_add(8) as int == ci + 8);
                }
            }
            c = self.suffix(c);
        }
        self.min_context = min_successor;
        self.max_context = min_successor;
    }
}

} // verus!

//! How the PPMd7 model adapts after a coded symbol: the frequencies of the found
//! state and its neighbours, the halving of a context's frequencies, the new
//! contexts for the longer orders, and the move to the context that follows.

use vstd::prelude::*;

use super::model::{alloc_only7, frame7, mem_only7, Ppmd7};
use crate::ppmd8::{MAX_FREQ, PPMD_NUM_INDEXES, UNIT_SIZE};
use crate::ppmd8::arena::{fits, same_outside, Arena};
use crate::ppmd8::grow::{first_with_sym, lemma_first_with_sym, lemma_freq_sum_one, lemma_freq_sum_two, state_offset};
use crate::ppmd8::adapt::{
    all_at_least, halved_state, lemma_front_block, lemma_front_positive, lemma_halved_front_multiset, lemma_same_state,
    moved_to_front, rescale_apart, rescaled_summ, sorted_by_freq, state_freq, states_of,
};
use crate::ppmd8::update::{freq_sum, lemma_freq_sum_frame, state_at};
use crate::ppmd8::arena::{le16, le32};
use vstd::arithmetic::div_mod::{lemma_mod_mod, lemma_small_mod, lemma_sub_mod_noop};
use crate::PPMD7_MAX_ORDER;

verus! {

/// `update_model` from the shortest context, whose found state has no successor yet:
/// the symbol goes to the text, which has room for it apart from the found state's
/// successor field.
pub open spec fn first_text_step7<RC>(p: Ppmd7<RC>) -> bool {
    let len = p.mem.bytes().len();
    let fs2 = p.found_state.wrapping_add(2);
    &&& p.order_fall != 0
    &&& p.max_context == p.min_context
    &&& p.mem.spec_rd32(fs2) == 0
    &&& p.mem.spec_rd32(p.min_context.wrapping_add(8)) == 0
    &&& p.text.wrapping_add(1) < p.units_start
    &&& fits(p.text, 1, len)
    &&& fits(fs2, 4, len)
    &&& (p.text + 1 <= fs2 || fs2 + 4 <= p.text)
}

/// `b` is `a` after `update_model` took its first text step: the found symbol is
/// written at the text position, which moves on by one, the found state leads to the
/// text that follows, and nothing else changes.
pub open spec fn text_step_taken7<RC>(a: Ppmd7<RC>, b: Ppmd7<RC>) -> bool {
    let fs2 = a.found_state.wrapping_add(2);
    &&& b == (Ppmd7 { mem: b.mem, text: (a.text + 1) as u32, ..a })
    &&& b.mem.spec_rd8(a.text) == a.mem.spec_rd8(a.found_state)
    &&& b.mem.spec_rd32(fs2) == a.text + 1
    &&& b.mem.bytes().len() == a.mem.bytes().len()
    &&& forall|j: int|
        0 <= j < a.mem.bytes().len() && j != a.text && !(fs2 <= j < fs2 + 4) ==> #[trigger] b.mem.bytes()[j]
            == a.mem.bytes()[j]
}

/// `update2` from the shortest context, whose found state has no successor yet and
/// stays within the frequency limit after its raise: the raised frequency and the
/// context's sum lie apart from the symbol, the text byte, the found state's successor
/// and the context's suffix field.
pub open spec fn plain_escape_step7<RC>(p: Ppmd7<RC>) -> bool {
    let len = p.mem.bytes().len();
    let fs = p.found_state;
    let f1 = fs.wrapping_add(1);
    let fs2 = fs.wrapping_add(2);
    let c2 = p.min_context.wrapping_add(2);
    let c8 = p.min_context.wrapping_add(8);
    &&& first_text_step7(p)
    &&& p.mem.spec_rd8(f1) + 4 <= MAX_FREQ
    &&& fits(f1, 1, len)
    &&& fits(c2, 2, len)
    &&& (f1 < fs2 || fs2 + 4 <= f1)
    &&& (f1 < c8 || c8 + 4 <= f1)
    &&& f1 != p.text
    &&& (c2 + 2 <= fs2 || fs2 + 4 <= c2)
    &&& (c2 + 2 <= c8 || c8 + 4 <= c2)
    &&& (c2 + 2 <= p.text || p.text + 1 <= c2)
    &&& (c2 + 2 <= f1 || f1 + 1 <= c2)
    &&& (c2 + 2 <= fs || fs + 1 <= c2)
}

/// `b` is `a` after `update1_0`: at full order, with no rescale due and the state
/// apart from its context's sum, the counts go up and the state's successor becomes
/// the current context; from the shortest context whose state has no successor yet,
/// the counts go up and the symbol is written to the text.
pub open spec fn first_state_updated7<RC>(a: Ppmd7<RC>, b: Ppmd7<RC>) -> bool {
    &&& ({
        let s = a.found_state;
        let mc = a.min_context;
        let f = a.mem.spec_rd8(s.wrapping_add(1)) as u32;
        let summ = a.mem.spec_rd16(mc.wrapping_add(2)) as u32;
        let next = a.mem.spec_rd32(s.wrapping_add(2));
        let ps: u32 = if 2 * f > summ { 1 } else { 0 };
        fits(s, 6, a.mem.bytes().len()) && fits(mc.wrapping_add(2), 2, a.mem.bytes().len()) && apart(
            s.wrapping_add(1),
            5,
            mc.wrapping_add(2),
            2,
        ) && f + 4 <= MAX_FREQ && a.order_fall == 0 && next > a.text ==> {
            &&& b.prev_success == ps
            &&& b.run_length == a.run_length.wrapping_add(ps as i32)
            &&& b.mem.spec_rd8(s.wrapping_add(1)) == f + 4
            &&& b.mem.spec_rd16(mc.wrapping_add(2)) == summ.wrapping_add(4) as u16
            &&& b.min_context == next
        }
    })
    &&& ({
        let s = a.found_state;
        let mc = a.min_context;
        let t = a.text;
        let f = a.mem.spec_rd8(s.wrapping_add(1)) as u32;
        let summ = a.mem.spec_rd16(mc.wrapping_add(2)) as u32;
        let ps: u32 = if 2 * f > summ { 1 } else { 0 };
        fits(s, 6, a.mem.bytes().len()) && fits(mc.wrapping_add(2), 2, a.mem.bytes().len()) && apart(
            s,
            6,
            mc.wrapping_add(2),
            2,
        ) && apart(t, 1, s, 6) && apart(t, 1, mc.wrapping_add(2), 2) && apart(mc.wrapping_add(8), 4, s, 6) && apart(
            mc.wrapping_add(8),
            4,
            mc.wrapping_add(2),
            2,
        ) && f + 4 <= MAX_FREQ && first_text_step7(a) ==> {
            &&& b == (Ppmd7 {
                text: (t + 1) as u32,
                prev_success: ps,
                run_length: a.run_length.wrapping_add(ps as i32),
                mem: b.mem,
                ..a
            })
            &&& b.mem.spec_rd8(s.wrapping_add(1)) == f + 4
            &&& b.mem.spec_rd16(mc.wrapping_add(2)) == summ.wrapping_add(4) as u16
            &&& b.mem.spec_rd8(t) == a.mem.spec_rd8(s)
            &&& b.mem.spec_rd32(s.wrapping_add(2)) == t + 1
        }
    })
}

/// `b` is `a` after `update_bin` on the state `s` of a context with one state: at
/// full order, where the state's successor is a context, that context becomes the
/// current one, with the state found, its frequency raised below 128, and the run
/// one longer.
pub open spec fn binary_state_updated7<RC>(a: Ppmd7<RC>, b: Ppmd7<RC>, s: u32) -> bool {
    let f = a.mem.spec_rd8(s.wrapping_add(1));
    let next = a.mem.spec_rd32(s.wrapping_add(2));
    a.order_fall == 0 && next > a.text && s as int + 6 <= a.mem.bytes().len() ==> {
        &&& b.min_context == next
        &&& b.found_state == s
        &&& b.prev_success == 1
        &&& b.run_length == a.run_length.wrapping_add(1)
        &&& b.mem.spec_rd8(s.wrapping_add(1)) == (if f < 128 { (f + 1) as u8 } else { f })
    }
}

/// The state of `sym` among the states from `stats`, searched over at most 256.
fn find_sym<RC>(p: &Ppmd7<RC>, stats: u32, sym: u32) -> (r: Option<u32>)
    requires
        p.wf(),
    ensures
        match r {
            Some(s) => exists|k: int|
                0 <= k < 256 && s == state_offset(stats, k) && p.mem.spec_rd8(s) == sym && forall|j: int|
                    0 <= j < k ==> p.mem.spec_rd8(#[trigger] state_offset(stats, j)) != sym,
            None => forall|j: int| 0 <= j < 256 ==> p.mem.spec_rd8(#[trigger] state_offset(stats, j)) != sym,
        },
{
    let mut s = stats;
    let mut k: u32 = 0;
    while k < 256
        invariant
            p.wf(),
            k <= 256,
            s == state_offset(stats, k as int),
            forall|j: int| 0 <= j < k ==> p.mem.spec_rd8(#[trigger] state_offset(stats, j)) != sym,
        decreases 256 - k,
    {
        if p.sym(s) == sym {
            return Some(s);
        }
        proof {
            vstd::arithmetic::div_mod::lemma_add_mod_noop(stats + 6 * k, 6, 0x1_0000_0000);
            vstd::arithmetic::div_mod::lemma_small_mod(6, 0x1_0000_0000);
        }
        s = s.wrapping_add(6);
        k = k + 1;
    }
    None
}

/// The frequency `update_model` gives the found symbol's new state in a context of
/// `ns1` states whose sum is `summ`, with `ns` the state count and `s0` the rest of
/// the current context's sum, and `f` the found frequency; and the context's new sum.
pub open spec fn added_state7(summ: u32, ns1: u32, ns: u32, s0: u32, f: u32) -> (u32, u32) {
    let a: u32 = if ns1.wrapping_mul(2) < ns { 1 } else { 0 };
    let b: u32 = if ns1.wrapping_mul(4) <= ns && summ <= ns1.wrapping_mul(8) { 2 } else { 0 };
    let sm = (summ.wrapping_add(a).wrapping_add(b) as u16) as u32;
    let cf = (2u32.wrapping_mul(f)).wrapping_mul(sm.wrapping_add(6));
    let sf = s0.wrapping_add(sm);
    if cf < 6u32.wrapping_mul(sf) {
        (
            (1 + (if cf > sf { 1u32 } else { 0u32 }) + (if cf >= 4u32.wrapping_mul(sf) { 1u32 } else { 0u32 })) as u32,
            (sm.wrapping_add(3) as u16) as u32,
        )
    } else {
        let v: u32 = (4 + (if cf >= 9u32.wrapping_mul(sf) { 1u32 } else { 0u32 }) + (if cf >= 12u32.wrapping_mul(sf) {
            1u32
        } else {
            0u32
        }) + (if cf >= 15u32.wrapping_mul(sf) { 1u32 } else { 0u32 })) as u32;
        (v, (sm.wrapping_add(v) as u16) as u32)
    }
}

/// `update_model` counts the found symbol again in the suffix of the current
/// context: the found state is rare (below a quarter of the limit), the suffix has
/// from two to 256 states, one of which holds the found symbol, and they lie inside
/// the memory apart from the suffix's own fields.
pub open spec fn suffix_raise_case7<RC>(p: Ppmd7<RC>) -> bool {
    let m = p.mem.bytes();
    let fs = p.found_state as int;
    let mc = p.min_context as int;
    let c = le32(m, mc + 8);
    let ns = le16(m, c);
    let stats = le32(m, c + 4);
    &&& fs + 6 <= m.len() && mc + 12 <= m.len()
    &&& c != 0 && c + 12 <= m.len()
    &&& m[fs + 1] < MAX_FREQ / 4
    &&& 2 <= ns <= 256
    &&& stats + 6 * ns <= m.len()
    &&& (stats + 6 * ns <= c || c + 12 <= stats)
    &&& exists|k: int| 0 <= k < ns && #[trigger] m[stats + 6 * k] == m[fs]
}

/// `update_model` counts the found symbol again in the suffix of the current
/// context, which holds one state, inside the memory.
pub open spec fn single_suffix_case7<RC>(p: Ppmd7<RC>) -> bool {
    let m = p.mem.bytes();
    let fs = p.found_state as int;
    let c = le32(m, p.min_context + 8);
    &&& fs + 6 <= m.len() && p.min_context + 12 <= m.len()
    &&& c != 0 && c + 12 <= m.len()
    &&& m[fs + 1] < MAX_FREQ / 4
    &&& le16(m, c) == 1
}

/// `b` is `a` after the found symbol was counted again in the suffix of the current
/// context, with `st` its state there now: the first state of the symbol moved one
/// place ahead where its neighbour's frequency was not above its own, its frequency
/// and the suffix's sum rose by 2 where it was below the limit less 9, and nothing
/// else changed.
pub open spec fn suffix_raised7<RC>(a: Ppmd7<RC>, b: Ppmd7<RC>, st: u32) -> bool {
    let m0 = a.mem.bytes();
    let m = b.mem.bytes();
    let c = le32(m0, a.min_context + 8);
    let ns = le16(m0, c);
    let stats = le32(m0, c + 4);
    let sym = m0[a.found_state as int];
    let k = first_with_sym(m0, stats, ns - 1, sym);
    let f = m0[stats + 6 * k + 1] as int;
    let d: int = if f < MAX_FREQ - 9 { 2 } else { 0 };
    let moved = k >= 1 && f >= m0[stats + 6 * (k - 1) + 1];
    let lo = if k >= 1 { stats + 6 * (k - 1) } else { stats };
    &&& b == (Ppmd7 { mem: b.mem, ..a })
    &&& m.len() == m0.len()
    &&& st == (if moved { stats + 6 * (k - 1) } else { stats + 6 * k })
    &&& state_at(m, st as int) == (sym, (f + d) as u8, le32(m0, stats + 6 * k + 2))
    &&& moved ==> state_at(m, stats + 6 * k) == state_at(m0, stats + 6 * (k - 1))
    &&& le16(m, c + 2) == (le16(m0, c + 2) + d) % 0x1_0000
    &&& freq_sum(m, stats, ns) == freq_sum(m0, stats, ns) + d
    &&& forall|x: int| 0 <= x < m0.len() && !(lo <= x < stats + 6 * k + 6) && !(c + 2 <= x < c + 4) ==> #[trigger] m[x] == m0[x]
}

/// What `raise_in_suffix` does to the suffix's states and sum, step by step, makes
/// `suffix_raised7`: the first state of the found symbol and the one before it
/// exchanged where the found one was not below, then its frequency and the sum
/// raised by 2 below the limit less 9.
proof fn lemma_suffix_raised7<RC>(a: Ppmd7<RC>, b: Ppmd7<RC>, m_sw: Seq<u8>, st: u32)
    requires
        suffix_raise_case7(a),
        b == (Ppmd7 { mem: b.mem, ..a }),
        ({
            let m0 = a.mem.bytes();
            let m = b.mem.bytes();
            let c = le32(m0, a.min_context + 8);
            let ns = le16(m0, c);
            let stats = le32(m0, c + 4);
            let k = first_with_sym(m0, stats, ns - 1, m0[a.found_state as int]);
            let f = m0[stats + 6 * k + 1] as int;
            let moved = k >= 1 && f >= m0[stats + 6 * (k - 1) + 1];
            &&& st == (if moved { stats + 6 * (k - 1) } else { stats + 6 * k })
            &&& m_sw.len() == m0.len()
            &&& moved ==> {
                &&& state_at(m_sw, st as int) == state_at(m0, stats + 6 * k)
                &&& state_at(m_sw, stats + 6 * k) == state_at(m0, st as int)
                &&& forall|x: int| 0 <= x < m0.len() && !(st <= x < st + 6) && !(stats + 6 * k <= x < stats + 6 * k + 6) ==> #[trigger] m_sw[x] == m0[x]
            }
            &&& !moved ==> m_sw == m0
            &&& m.len() == m0.len()
            &&& f < MAX_FREQ - 9 ==> {
                &&& m[st + 1] == f + 2
                &&& le16(m, c + 2) == (le16(m_sw, c + 2) + 2) % 0x1_0000
                &&& forall|x: int| 0 <= x < m0.len() && x != st + 1 && !(c + 2 <= x < c + 4) ==> #[trigger] m[x] == m_sw[x]
            }
            &&& !(f < MAX_FREQ - 9) ==> m == m_sw
        }),
    ensures
        suffix_raised7(a, b, st),
{
    let m0 = a.mem.bytes();
    let m = b.mem.bytes();
    let c = le32(m0, a.min_context + 8);
    let ns = le16(m0, c);
    let n = ns - 1;
    let stats = le32(m0, c + 4);
    let sym = m0[a.found_state as int];
    lemma_first_with_sym(m0, stats, n, sym);
    let k = first_with_sym(m0, stats, n, sym);
    let f = m0[stats + 6 * k + 1] as int;
    let d: int = if f < MAX_FREQ - 9 { 2 } else { 0 };
    let moved = k >= 1 && f >= m0[stats + 6 * (k - 1) + 1];
    let lo = if k >= 1 { stats + 6 * (k - 1) } else { stats };
    assert(m_sw[c + 2] == m0[c + 2] && m_sw[c + 3] == m0[c + 3]);
    assert(m_sw[st as int] == sym && m_sw[st + 1] == f);
    assert(m[st as int] == m_sw[st as int]);
    assert(m[st + 2] == m_sw[st + 2] && m[st + 3] == m_sw[st + 3] && m[st + 4] == m_sw[st + 4] && m[st + 5] == m_sw[st + 5]);
    assert(le32(m_sw, st + 2) == le32(m0, stats + 6 * k + 2));
    if moved {
        assert(m[stats + 6 * k] == m_sw[stats + 6 * k] && m[stats + 6 * k + 1] == m_sw[stats + 6 * k + 1]);
        assert(m[stats + 6 * k + 2] == m_sw[stats + 6 * k + 2] && m[stats + 6 * k + 3] == m_sw[stats + 6 * k + 3]);
        assert(m[stats + 6 * k + 4] == m_sw[stats + 6 * k + 4] && m[stats + 6 * k + 5] == m_sw[stats + 6 * k + 5]);
    }
    assert forall|x: int| 0 <= x < m0.len() && !(lo <= x < stats + 6 * k + 6) && !(c + 2 <= x < c + 4) implies #[trigger] m[x] == m0[x] by {
        assert(m[x] == m_sw[x]);
    }
    assert forall|j: int| 0 <= j < n + 1 && j != k - 1 && j != k implies #[trigger] m0[stats + 6 * j + 1] == m[stats + 6 * j + 1] by {
        assert(m[stats + 6 * j + 1] == m_sw[stats + 6 * j + 1]);
    }
    if k >= 1 {
        assert(m[lo + 1] == m_sw[lo + 1] || lo == st);
        assert(m[lo + 1] + m[stats + 6 * k + 1] == m0[lo + 1] + m0[stats + 6 * k + 1] + d);
        lemma_freq_sum_two(m0, m, stats, n + 1, k - 1, k);
    } else {
        assert forall|j: int| 0 <= j < n + 1 && j != 0 implies #[trigger] m0[stats + 6 * j + 1] == m[stats + 6 * j + 1] by {
            assert(j != k - 1 && j != k);
        }
        lemma_freq_sum_one(m0, m, stats, n + 1, 0);
    }
}

/// Counting the found symbol again in the suffix of the current context keeps that
/// context's escape count: its sum less the frequencies of its states is what it
/// was (in the 16 bits the sum has), the frequencies of its states grow by exactly
/// what the found symbol's state gained, and that is 2 below the limit less 9.
pub proof fn law_suffix_raise_keeps_escape7<RC>(a: Ppmd7<RC>, b: Ppmd7<RC>, st: u32)
    requires
        a.wf(),
        suffix_raise_case7(a),
        suffix_raised7(a, b, st),
    ensures
        ({
            let m0 = a.mem.bytes();
            let m = b.mem.bytes();
            let c = le32(m0, a.min_context + 8);
            let ns = le16(m0, c);
            let stats = le32(m0, c + 4);
            let k = first_with_sym(m0, stats, ns - 1, m0[a.found_state as int]);
            &&& (le16(m, c + 2) - freq_sum(m, stats, ns)) % 0x1_0000 == (le16(m0, c + 2) - freq_sum(m0, stats, ns)) % 0x1_0000
            &&& freq_sum(m, stats, ns) - freq_sum(m0, stats, ns) == m[st + 1] - m0[stats + 6 * k + 1]
            &&& m[st as int] == m0[a.found_state as int]
            &&& m[st + 1] == m0[stats + 6 * k + 1] + (if m0[stats + 6 * k + 1] < MAX_FREQ - 9 { 2int } else { 0 })
        }),
{
    let m0 = a.mem.bytes();
    let c = le32(m0, a.min_context + 8);
    let ns = le16(m0, c);
    let stats = le32(m0, c + 4);
    let k = first_with_sym(m0, stats, ns - 1, m0[a.found_state as int]);
    lemma_first_with_sym(m0, stats, ns - 1, m0[a.found_state as int]);
    let f = m0[stats + 6 * k + 1] as int;
    let d: int = if f < MAX_FREQ - 9 { 2 } else { 0 };
    let x = le16(m0, c + 2) + d;
    let y = freq_sum(m0, stats, ns) + d;
    let q = x / 0x1_0000;
    vstd::arithmetic::div_mod::lemma_fundamental_div_mod(x, 0x1_0000);
    vstd::arithmetic::div_mod::lemma_mod_multiples_vanish(-q, x - y, 0x1_0000);
    assert(0x1_0000 * (-q) + (x - y) == x % 0x1_0000 - y);
}

/// `update_model` from a context one order longer than the current one: the found
/// state is frequent enough that its suffix is left alone and already leads to a
/// context, the model has fallen back, the longest context has the current one as
/// suffix and an odd number of states (so its block has room for one more), and the
/// text, the two contexts, the new state's place and the found state lie in the
/// memory apart from each other.
pub open spec fn one_escape_step7<RC>(p: Ppmd7<RC>) -> bool {
    let len = p.mem.bytes().len();
    let m = p.mem.bytes();
    let fs = p.found_state as int;
    let mc = p.min_context as int;
    let c = p.max_context as int;
    let t = p.text as int;
    let ns1 = le16(m, c);
    let st = le32(m, c + 4) + 6 * ns1;
    &&& p.order_fall != 0
    &&& fs + 6 <= len && mc + 12 <= len && c + 12 <= len && t + 1 <= len
    &&& m[fs + 1] >= MAX_FREQ / 4
    &&& le32(m, fs + 2) > t + 1
    &&& le32(m, c + 8) == mc
    &&& c != mc
    &&& ns1 % 2 == 1 && 1 < ns1 < 256
    &&& t + 1 < p.units_start
    &&& st + 6 <= len
    &&& (st + 6 <= c || c + 12 <= st)
    &&& (t < c || c + 12 <= t) && (t < mc || mc + 12 <= t) && (t < st || st + 6 <= t) && (t < fs || fs + 6 <= t)
}

/// `b` is `a` after `update_model` took the step `one_escape_step7` describes: the
/// symbol is written to the text, the longest context gains one state for it, with
/// its estimated frequency and the text's next position (or, at full order, the
/// found state's successor) as successor, and the current context becomes that
/// successor.
pub open spec fn one_escape_taken7<RC>(a: Ppmd7<RC>, b: Ppmd7<RC>) -> bool {
    let m0 = a.mem.bytes();
    let m = b.mem.bytes();
    let fs = a.found_state as int;
    let mc = a.min_context as int;
    let c = a.max_context as int;
    let t = a.text as int;
    let ns1 = le16(m0, c);
    let st = le32(m0, c + 4) + 6 * ns1;
    let f = m0[fs + 1] as u32;
    let sym = m0[fs];
    let succ = le32(m0, fs + 2);
    let max_succ = if a.order_fall == 1 { succ } else { t + 1 };
    let ns = le16(m0, mc) as u32;
    let s0 = (le16(m0, mc + 2) as u32).wrapping_sub(ns).wrapping_sub(f.wrapping_sub(1));
    let added = added_state7(le16(m0, c + 2) as u32, ns1 as u32, ns, s0, f);
    &&& b.min_context == succ
    &&& b.max_context == succ
    &&& b.order_fall == a.order_fall - 1
    &&& b.text == (if a.order_fall == 1 { t } else { t + 1 })
    &&& m.len() == m0.len()
    &&& m[t] == sym
    &&& le16(m, c) == ns1 + 1
    &&& le16(m, c + 2) == added.1
    &&& state_at(m, st) == (sym, added.0 as u8, max_succ)
    &&& forall|x: int| 0 <= x < m0.len() && x != t && !(c <= x < c + 4) && !(st <= x < st + 6) ==> #[trigger] m[x] == m0[x]
}

/// `create_successors` makes exactly one context, taken from the top of the free
/// area: it links the found state (no `skip`) from the current context, which has no
/// suffix, the free area is not empty, and the found state's successor field lies in
/// the memory apart from the unit below the free area's top.
pub open spec fn one_context_made7<RC>(p: Ppmd7<RC>, skip: bool) -> bool {
    let fs2 = p.found_state.wrapping_add(2);
    let hi = p.hi_unit;
    &&& !skip
    &&& p.mem.spec_rd32(p.min_context.wrapping_add(8)) == 0
    &&& hi != p.lo_unit
    &&& 12 <= hi <= p.mem.bytes().len()
    &&& fits(fs2, 4, p.mem.bytes().len())
    &&& (fs2 + 4 <= hi - 12 || hi <= fs2)
}

/// The frequency a new context of one state gets for the symbol that follows in the
/// text, estimated from the state `s` of that symbol in the context `c` of more than
/// one state: a share of the state's frequency (less one) against the rest of the
/// context's sum.
pub open spec fn estimated_freq7<RC>(p: Ppmd7<RC>, c: u32, s: u32) -> u8 {
    let cf = (p.mem.spec_rd8(s.wrapping_add(1)) as u32).wrapping_sub(1);
    let s0 = (p.mem.spec_rd16(c.wrapping_add(2)) as u32).wrapping_sub(p.mem.spec_rd16(c) as u32).wrapping_sub(cf);
    let v: u32 = if cf.wrapping_mul(2) <= s0 {
        if cf.wrapping_mul(5) > s0 {
            2
        } else {
            1
        }
    } else {
        (1 + cf.wrapping_mul(2).wrapping_add(s0.wrapping_mul(3)).wrapping_sub(1) / s0.wrapping_mul(2)) as u32
    };
    v as u8
}

/// The `k`-th state from `stats` is the first one whose symbol is `sym`.
pub open spec fn first_sym_state7<RC>(p: Ppmd7<RC>, stats: u32, sym: u32, k: int) -> bool {
    &&& 0 <= k < 256
    &&& p.mem.spec_rd8(state_offset(stats, k)) == sym
    &&& forall|j: int| 0 <= j < k ==> p.mem.spec_rd8(#[trigger] state_offset(stats, j)) != sym
}

/// A write of `n` bytes at `off` keeps the `w`-byte value read at `x` apart from it.
pub proof fn lemma_read_kept(a: Arena, b: Arena, off: int, n: int, x: u32, w: int)
    requires
        same_outside(a.bytes(), b.bytes(), off, n),
        x + w <= off || off + n <= x,
        w == 1 || w == 2 || w == 4,
    ensures
        w == 1 ==> b.spec_rd8(x) == a.spec_rd8(x),
        w == 2 ==> b.spec_rd16(x) == a.spec_rd16(x),
        w == 4 ==> b.spec_rd32(x) == a.spec_rd32(x),
{
    let xi = x as int;
    if xi + w <= a.bytes().len() {
        assert(b.bytes()[xi] == a.bytes()[xi]);
        if w >= 2 {
            assert(b.bytes()[xi + 1] == a.bytes()[xi + 1]);
        }
        if w == 4 {
            assert(b.bytes()[xi + 2] == a.bytes()[xi + 2] && b.bytes()[xi + 3] == a.bytes()[xi + 3]);
        }
    }
}

/// The current context of `p` has between two and 256 states, lying apart from the
/// context inside the memory, the found state is one of them, and no state other
/// than the found one halves to zero in `rescale`.
pub open spec fn rescale_keeps_all7<RC>(p: Ppmd7<RC>) -> bool {
    let m = p.mem.bytes();
    let mc = p.min_context;
    let stats = p.mem.spec_rd32(mc.wrapping_add(4));
    let ns = p.mem.spec_rd16(mc) as int;
    let ad: int = if p.order_fall != 0 { 1 } else { 0 };
    &&& 2 <= ns <= 256
    &&& rescale_apart(mc, stats, ns, m.len())
    &&& stats <= p.found_state < stats + 6 * ns
    &&& (p.found_state - stats) % 6 == 0
    &&& forall|j: int|
        0 <= j < ns && j != (p.found_state - stats) / 6 ==> (#[trigger] state_freq(m, stats as int, j) + ad) / 2 >= 1
}

/// `b` is `a` after `rescale` of a context that keeps all its states: they are the old
/// states with their frequencies halved (the found one raised by four first, rounding
/// up where the model has fallen back), sorted by frequency, the first of them the
/// found state; the sum is the new frequencies plus half the escape frequency; the
/// rest of the memory is as it was.
pub open spec fn rescaled_whole7<RC>(a: Ppmd7<RC>, b: Ppmd7<RC>) -> bool {
    let m0 = a.mem.bytes();
    let m = b.mem.bytes();
    let mc = a.min_context;
    let stats = a.mem.spec_rd32(mc.wrapping_add(4));
    let ns = a.mem.spec_rd16(mc) as int;
    let ad: int = if a.order_fall != 0 { 1 } else { 0 };
    &&& b.found_state == stats
    &&& sorted_by_freq(m, stats as int, ns)
    &&& all_at_least(m, stats as int, ns, 1)
    &&& states_of(m, stats as int, ns).to_multiset() == Seq::new(
        ns as nat,
        |j: int| halved_state(state_at(m0, stats + 6 * j), j == (a.found_state - stats) / 6, ad),
    ).to_multiset()
    &&& le16(m, mc + 2) == rescaled_summ(freq_sum(m, stats as int, ns), le16(m0, mc + 2) - freq_sum(m0, stats as int, ns))
    &&& m.len() == m0.len()
    &&& forall|x: int| 0 <= x < m0.len() && !(stats <= x < stats + 6 * ns) && !(mc + 2 <= x < mc + 4) ==> #[trigger] m[x] == m0[x]
}

/// The `n` bytes at `x` and the `m` bytes at `y` do not overlap.
pub open spec fn apart(x: u32, n: int, y: u32, m: int) -> bool {
    x + n <= y || y + m <= x
}

impl<RC> Ppmd7<RC> {
    /// Makes the contexts that follow the found symbol, from the current context down
    /// its suffixes: it walks down until a context whose state for the symbol already
    /// leads elsewhere (or the root), then makes one context of one state per order on
    /// the way back up, each holding the symbol that followed in the text. Without
    /// `skip` the found state is linked too. Returns the longest context, or `None`
    /// when an allocation fails.
    ///
    /// Where one context is made for the found state, from a current context without a
    /// suffix, it is the unit below the top of the free area: one state holding the
    /// symbol that followed in the text, with the text's next position as successor,
    /// its frequency taken from the current context's state for that symbol (estimated
    /// where the context has more states), and the current context as suffix; the found
    /// state then leads to it.
    pub fn create_successors(&mut self, skip: bool) -> (r: Option<u32>)
        requires
            old(self).wf(),
        ensures
            frame7(*old(self), *final(self)),
            final(self).min_context == old(self).min_context,
            final(self).max_context == old(self).max_context,
            final(self).found_state == old(self).found_state,
            final(self).text == old(self).text,
            final(self).order_fall == old(self).order_fall,
            final(self).run_length == old(self).run_length,
            final(self).init_rl == old(self).init_rl,
            skip && old(self).mem.spec_rd32(old(self).min_context.wrapping_add(8)) == 0 ==> r == Some(old(self).min_context)
                && *final(self) == *old(self),
            one_context_made7(*old(self), skip) && (old(self).mem.spec_rd16(old(self).min_context) == 1 || r is Some) ==> ({
                let c = old(self).min_context;
                let fs = old(self).found_state;
                let up = old(self).mem.spec_rd32(fs.wrapping_add(2));
                let b = (old(self).hi_unit - 12) as u32;
                &&& r == Some(b)
                &&& final(self).hi_unit == b
                &&& final(self).mem.spec_rd16(b) == 1
                &&& final(self).mem.spec_rd8((b + 2) as u32) == old(self).mem.spec_rd8(up)
                &&& final(self).mem.spec_rd32((b + 4) as u32) == up.wrapping_add(1)
                &&& final(self).mem.spec_rd32((b + 8) as u32) == c
                &&& final(self).mem.spec_rd32(fs.wrapping_add(2)) == b
                &&& old(self).mem.spec_rd16(c) == 1 ==> final(self).mem.spec_rd8((b + 3) as u32) == old(self).mem.spec_rd8(
                    c.wrapping_add(2).wrapping_add(1),
                )
                &&& old(self).mem.spec_rd16(c) != 1 ==> exists|k: int|
                    first_sym_state7(*old(self), old(self).mem.spec_rd32(c.wrapping_add(4)), old(self).mem.spec_rd8(up) as u32, k)
                        && final(self).mem.spec_rd8((b + 3) as u32) == estimated_freq7(
                        *old(self),
                        c,
                        #[trigger] state_offset(old(self).mem.spec_rd32(c.wrapping_add(4)), k),
                    )
            }),
    {
        let ghost one_made = one_context_made7(*old(self), skip);
        let mut c = self.min_context;
        let fs = self.found_state;
        let up_branch = self.successor(fs);
        let fsym = self.sym(fs);
        let mut ps: Vec<u32> = Vec::new();
        if !skip {
            ps.push(fs);
        }
        let mut fuel: usize = self.mem.len();
        let ghost mut fresh = true;
        while self.suffix(c) != 0 && fuel > 0
            invariant
                frame7(*old(self), *self),
                *self == *old(self),
                one_made == one_context_made7(*old(self), skip),
                one_made ==> fresh,
                fresh ==> c == old(self).min_context && ps.len() == (if skip { 0int } else { 1int }),
                fresh && !skip ==> ps@ == seq![fs],
                !fresh ==> old(self).mem.spec_rd32(old(self).min_context.wrapping_add(8)) != 0,
                skip ==> ps.len() == 0 || !fresh,
                ps.len() <= PPMD7_MAX_ORDER + 1,
                up_branch == old(self).mem.spec_rd32(old(self).found_state.wrapping_add(2)),
                fs == old(self).found_state,
                fsym < 256,
            ensures
                fresh ==> c == old(self).min_context && ps.len() == (if skip { 0int } else { 1int }),
                !fresh ==> old(self).mem.spec_rd32(old(self).min_context.wrapping_add(8)) != 0,
                *self == *old(self),
                one_made ==> fresh && ps@ == seq![fs],
            decreases fuel,
        {
            proof {
                fresh = false;
            }
            fuel = fuel - 1;
            c = self.suffix(c);
            let s = if self.num_stats(c) != 1 {
                match find_sym(self, self.stats(c), fsym) {
                    Some(x) => x,
                    None => return None,
                }
            } else {
                self.one_state(c)
            };
            let successor = self.successor(s);
            if successor != up_branch {
                c = successor;
                if ps.len() == 0 {
                    return Some(c);
                }
                break;
            }
            if ps.len() > PPMD7_MAX_ORDER as usize {
                return None;
            }
            ps.push(s);
        }
        if ps.len() == 0 {
            return Some(c);
        }
        let up_sym = self.mem.rd8(up_branch);
        let up_succ = up_branch.wrapping_add(1);
        let up_freq: u8 = if self.num_stats(c) == 1 {
            self.freq(self.one_state(c)) as u8
        } else {
            let s = match find_sym(self, self.stats(c), up_sym as u32) {
                Some(x) => x,
                None => return None,
            };
            let cf = self.freq(s).wrapping_sub(1);
            let s0 = self.summ_freq(c).wrapping_sub(self.num_stats(c)).wrapping_sub(cf);
            let v: u32 = if cf.wrapping_mul(2) <= s0 {
                if cf.wrapping_mul(5) > s0 {
                    2
                } else {
                    1
                }
            } else {
                if s0 == 0 {
                    return None;
                }
                1 + cf.wrapping_mul(2).wrapping_add(s0.wrapping_mul(3)).wrapping_sub(1) / s0.wrapping_mul(2)
            };
            v as u8
        };
        let ghost up0 = old(self).mem.spec_rd32(old(self).found_state.wrapping_add(2));
        let ghost b0 = (old(self).hi_unit - 12) as u32;
        let ghost c0 = old(self).min_context;
        let ghost mut fresh3 = true;
        while ps.len() > 0
            invariant
                one_made == one_context_made7(*old(self), skip),
                up0 == old(self).mem.spec_rd32(old(self).found_state.wrapping_add(2)),
                b0 == (old(self).hi_unit - 12) as u32,
                c0 == old(self).min_context,
                one_made ==> up_sym == old(self).mem.spec_rd8(up0) && up_succ == up0.wrapping_add(1),
                one_made && old(self).mem.spec_rd16(c0) == 1 ==> up_freq == old(self).mem.spec_rd8(
                    c0.wrapping_add(2).wrapping_add(1),
                ),
                one_made && old(self).mem.spec_rd16(c0) != 1 ==> exists|k: int|
                    first_sym_state7(*old(self), old(self).mem.spec_rd32(c0.wrapping_add(4)), up_sym as u32, k) && up_freq
                        == estimated_freq7(*old(self), c0, #[trigger] state_offset(old(self).mem.spec_rd32(c0.wrapping_add(4)), k)),
                one_made && fresh3 ==> *self == *old(self) && ps@ == seq![old(self).found_state] && c == c0,
                one_made && !fresh3 ==> ps.len() == 0 && c == b0 && self.hi_unit == b0 && self.mem.spec_rd16(b0) == 1
                    && self.mem.spec_rd8((b0 + 2) as u32) == up_sym && self.mem.spec_rd8((b0 + 3) as u32) == up_freq
                    && self.mem.spec_rd32((b0 + 4) as u32) == up_succ && self.mem.spec_rd32((b0 + 8) as u32) == c0
                    && self.mem.spec_rd32(old(self).found_state.wrapping_add(2)) == b0,
                frame7(*old(self), *self),
                self.min_context == old(self).min_context,
                self.max_context == old(self).max_context,
                self.found_state == old(self).found_state,
                self.text == old(self).text,
                self.order_fall == old(self).order_fall,
                self.run_length == old(self).run_length,
                self.init_rl == old(self).init_rl,
                !(skip && old(self).mem.spec_rd32(old(self).min_context.wrapping_add(8)) == 0),
            decreases ps.len(),
        {
            let c1 = if self.hi_unit != self.lo_unit {
                self.hi_unit = self.hi_unit.wrapping_sub(UNIT_SIZE);
                self.hi_unit
            } else if self.free_list[0] != 0 {
                self.remove_node(0)
            } else {
                match self.alloc_units_rare(0) {
                    Some(x) => x,
                    None => return None,
                }
            };
            let ghost was_fresh3 = fresh3;
            proof {
                fresh3 = false;
            }
            let ghost a0 = self.mem;
            self.set_num_stats(c1, 1);
            let ghost a1 = self.mem;
            let one = self.one_state(c1);
            self.set_sym(one, up_sym);
            let ghost a2 = self.mem;
            self.set_freq(one, up_freq);
            let ghost a3 = self.mem;
            self.set_successor(one, up_succ);
            let ghost a4 = self.mem;
            self.set_suffix(c1, c);
            let ghost a5 = self.mem;
            let st = ps.pop().unwrap();
            self.set_successor(st, c1);
            proof {
                if one_made && was_fresh3 {
                    let a6 = self.mem;
                    let bi = b0 as int;
                    let f2 = st.wrapping_add(2) as int;
                    assert(c1 == b0);
                    assert(st == old(self).found_state);
                    assert(one == b0 + 2 && one.wrapping_add(1) == b0 + 3 && one.wrapping_add(2) == b0 + 4);
                    assert(c1.wrapping_add(8) == b0 + 8);
                    lemma_read_kept(a1, a2, bi + 2, 1, b0, 2);
                    lemma_read_kept(a2, a3, bi + 3, 1, b0, 2);
                    lemma_read_kept(a2, a3, bi + 3, 1, (b0 + 2) as u32, 1);
                    lemma_read_kept(a3, a4, bi + 4, 4, b0, 2);
                    lemma_read_kept(a3, a4, bi + 4, 4, (b0 + 2) as u32, 1);
                    lemma_read_kept(a3, a4, bi + 4, 4, (b0 + 3) as u32, 1);
                    lemma_read_kept(a4, a5, bi + 8, 4, b0, 2);
                    lemma_read_kept(a4, a5, bi + 8, 4, (b0 + 2) as u32, 1);
                    lemma_read_kept(a4, a5, bi + 8, 4, (b0 + 3) as u32, 1);
                    lemma_read_kept(a4, a5, bi + 8, 4, (b0 + 4) as u32, 4);
                    lemma_read_kept(a5, a6, f2, 4, b0, 2);
                    lemma_read_kept(a5, a6, f2, 4, (b0 + 2) as u32, 1);
                    lemma_read_kept(a5, a6, f2, 4, (b0 + 3) as u32, 1);
                    lemma_read_kept(a5, a6, f2, 4, (b0 + 4) as u32, 4);
                    lemma_read_kept(a5, a6, f2, 4, (b0 + 8) as u32, 4);
                }
            }
            c = c1;
        }
        Some(c)
    }

    /// Halves the frequencies of the current context after one passed the limit: the
    /// found state moves to the front, the others are halved and kept sorted by
    /// frequency, states that drop to zero are removed (a context left with one state
    /// holds it in place), and the sum is rebuilt with half the escape frequency. The
    /// found state is then the first state.
    #[verifier::spinoff_prover]
    #[verifier::rlimit(30)]
    pub fn rescale(&mut self)
        requires
            old(self).wf(),
        ensures
            frame7(*old(self), *final(self)),
            final(self).min_context == old(self).min_context,
            final(self).max_context == old(self).max_context,
            final(self).text == old(self).text,
            final(self).order_fall == old(self).order_fall,
            final(self).units_start == old(self).units_start,
            final(self).found_state == final(self).mem.spec_rd32(old(self).min_context.wrapping_add(4))
                || final(self).found_state == old(self).min_context.wrapping_add(2),
            rescale_keeps_all7(*old(self)) ==> rescaled_whole7(*old(self), *final(self)),
    {
        let ghost m0 = self.mem.bytes();
        let ghost keep = rescale_keeps_all7(*self);
        let mc = self.min_context;
        let stats = self.stats(mc);
        let ghost base = stats as int;
        let ghost nn = self.mem.spec_rd16(mc) as int - 1;
        let fs = self.found_state;
        let ghost t = (fs - stats) / 6;
        // The found state to the front.
        if fs != stats {
            self.mem.move_to_front(stats, fs);
            proof {
                if keep {
                    assert(fs as int == base + 6 * t);
                    lemma_front_block(self.mem.bytes(), m0, base, t, nn);
                }
            }
        } else {
            proof {
                if keep {
                    assert(moved_to_front(m0, m0, base, t, nn));
                }
            }
        }
        let ghost m_rot = self.mem.bytes();
        let adder: u32 = if self.order_fall != 0 {
            1
        } else {
            0
        };
        proof {
            if keep {
                lemma_halved_front_multiset(m_rot, m0, base, t, nn, adder as int);
                lemma_front_positive(m_rot, m0, base, t, nn, adder as int);
            }
        }
        let summ = self.summ_freq(mc);
        let num_stats = self.num_stats(mc);
        let n: u32 = if num_stats < 2 {
            1
        } else if num_stats > 256 {
            255
        } else {
            num_stats - 1
        };
        proof {
            if keep {
                assert(mc.wrapping_add(2) as int == mc + 2);
                assert(m_rot[mc + 2] == m0[mc + 2] && m_rot[mc + 3] == m0[mc + 3]);
                assert(summ == le16(m0, mc + 2));
                assert(m_rot[mc as int] == m0[mc as int] && m_rot[mc + 1] == m0[mc + 1]);
                assert(n == nn);
            }
        }
        let (sum_freq, esc) = self.mem.halve_states(stats, n, adder, summ);
        let mut esc_freq = esc;
        let ghost m_h = self.mem.bytes();
        let mut s = stats.wrapping_add(n * 6);
        proof {
            if keep {
                assert(s.wrapping_add(1) as int == base + 6 * nn + 1);
                assert(state_freq(m_h, base, nn) >= 1);
            }
        }
        if self.freq(s) == 0 {
            let mut n: u32 = 0;
            let mut fuel3: u32 = 256;
            while fuel3 > 0
                invariant
                    frame7(*old(self), *self),
                    self.min_context == old(self).min_context,
                    self.max_context == old(self).max_context,
                    self.text == old(self).text,
                    self.order_fall == old(self).order_fall,
                self.units_start == old(self).units_start,
                    self.units_start == old(self).units_start,
                    n <= 256 - fuel3,
                decreases fuel3,
            {
                fuel3 = fuel3 - 1;
                n = n + 1;
                s = s.wrapping_sub(6);
                if self.freq(s) != 0 {
                    break;
                }
            }
            esc_freq = esc_freq.wrapping_add(n);
            let new_ns = num_stats.wrapping_sub(n);
            self.set_num_stats(mc, new_ns as u16);
            if new_ns == 1 {
                let tsym = self.sym(stats);
                let mut tfreq = self.freq(stats);
                let tsucc = self.successor(stats);
                let mut fuel4: u32 = 32;
                while fuel4 > 0
                    invariant
                        tfreq < 256,
                    decreases fuel4,
                {
                    fuel4 = fuel4 - 1;
                    tfreq = tfreq - tfreq / 2;
                    esc_freq = esc_freq / 2;
                    if esc_freq <= 1 {
                        break;
                    }
                }
                let idx = self.u2i((num_stats + 1) / 2);
                self.insert_node(stats, idx);
                let one = self.one_state(mc);
                self.set_sym(one, tsym as u8);
                self.set_freq(one, tfreq as u8);
                self.set_successor(one, tsucc);
                self.found_state = one;
                return;
            }
            let n0 = (num_stats + 1) / 2;
            let n1 = (new_ns.wrapping_add(1)) / 2;
            if n0 != n1 {
                let ptr = self.shrink_units(stats, n0, n1);
                self.set_stats(mc, ptr);
            }
        }
        let raised = sum_freq.wrapping_add(esc_freq);
        let summ2 = raised.wrapping_sub(esc_freq / 2);
        self.set_summ_freq(mc, (summ2 % 0x1_0000) as u16);
        self.found_state = self.stats(mc);
        proof {
            if keep {
                let m = self.mem.bytes();
                let k = nn + 1;
                assert(mc.wrapping_add(4) as int == mc + 4);
                let e = esc_freq as int;
                let x = sum_freq + e - e / 2;
                assert(raised as int == (sum_freq + e) % 0x1_0000_0000);
                assert(summ2 as int == (raised - e / 2) % 0x1_0000_0000);
                lemma_small_mod((e / 2) as nat, 0x1_0000_0000);
                lemma_small_mod(esc_freq as nat, 0x1_0000_0000);
                lemma_sub_mod_noop(sum_freq + e, e / 2, 0x1_0000_0000);
                lemma_mod_mod(x, 0x1_0000, 0x1_0000);
                assert(le16(m, mc + 2) == rescaled_summ(sum_freq as int, esc_freq as int));
                assert forall|x: int| 0 <= x < m0.len() && !(base <= x < base + 6 * k) && !(mc + 2 <= x < mc + 4) implies #[trigger] m[x]
                    == m0[x] by {
                    assert(m[x] == m_h[x]);
                    assert(m_h[x] == m_rot[x]);
                }
                assert(m[mc + 4] == m0[mc + 4] && m[mc + 5] == m0[mc + 5] && m[mc + 6] == m0[mc + 6] && m[mc + 7] == m0[mc + 7]);
                assert forall|j: int| 0 <= j < k implies #[trigger] state_at(m, base + 6 * j) == state_at(m_h, base + 6 * j) by {
                    let a = base + 6 * j;
                    assert forall|y: int| a <= y < a + 6 implies #[trigger] m[y] == m_h[y - a + a] by {
                    }
                    lemma_same_state(m, a, m_h, a);
                }
                assert(states_of(m, base, k) =~= states_of(m_h, base, k));
                assert forall|j: int| 0 <= j < k implies #[trigger] m[base + 6 * j + 1] == m_h[base + 6 * j + 1] by {
                    assert(state_at(m, base + 6 * j) == state_at(m_h, base + 6 * j));
                }
                lemma_freq_sum_frame(m, m_h, base, k);
                assert forall|a: int, b: int| 0 <= a < b < k implies #[trigger] state_freq(m, base, a) >= #[trigger] state_freq(m, base, b) by {
                    assert(state_freq(m_h, base, a) >= state_freq(m_h, base, b));
                }
                assert forall|j: int| 0 <= j < k implies #[trigger] state_freq(m, base, j) >= 1 by {
                    assert(state_freq(m_h, base, j) >= 1);
                }
            }
        }
    }

    /// Counts the found symbol once more in the suffix of the current context, where
    /// the found state is rare (below a quarter of the frequency limit) and the
    /// context has a suffix: a suffix of one state gains 1 up to 32; in a suffix of
    /// several states the found symbol's state moves ahead of its neighbour where it
    /// is not below it, and gains 2, as does the suffix's sum, below the limit less 9.
    /// Returns that state of a suffix of several states.
    #[verifier::spinoff_prover]
    #[verifier::rlimit(40)]
    pub fn raise_in_suffix(&mut self) -> (r: Option<u32>)
        requires
            old(self).wf(),
        ensures
            frame7(*old(self), *final(self)),
            mem_only7(*old(self), *final(self)),
            !((old(self).mem.spec_rd8(old(self).found_state.wrapping_add(1)) as u32) < (MAX_FREQ / 4) as u32
                && old(self).mem.spec_rd32(old(self).min_context.wrapping_add(8)) != 0) ==> *final(self) == *old(self),
            suffix_raise_case7(*old(self)) ==> (r matches Some(st) && suffix_raised7(*old(self), *final(self), st)),
            single_suffix_case7(*old(self)) ==> ({
                let m0 = old(self).mem.bytes();
                let c = le32(m0, old(self).min_context + 8);
                let f = m0[c + 3];
                &&& *final(self) == (Ppmd7 { mem: final(self).mem, ..*old(self) })
                &&& final(self).mem.bytes() == (if f < 32 { m0.update(c + 3, (f + 1) as u8) } else { m0 })
            }),
    {
        let ghost case = suffix_raise_case7(*old(self));
        let ghost m0 = self.mem.bytes();
        let fs = self.found_state;
        let f_sym = self.sym(fs);
        let mc = self.min_context;
        if self.freq(fs) < (MAX_FREQ / 4) as u32 && self.suffix(mc) != 0 {
            let c = self.suffix(mc);
            proof {
                if case || single_suffix_case7(*old(self)) {
                    assert(mc.wrapping_add(8) as int == mc + 8);
                    assert(c as int == le32(m0, mc + 8));
                    assert(c.wrapping_add(2) as int == c + 2);
                    assert(c.wrapping_add(3) as int == c + 3);
                    assert(c.wrapping_add(4) as int == c + 4);
                }
            }
            if self.num_stats(c) == 1 {
                let s = self.one_state(c);
                let f = self.freq(s);
                if f < 32 {
                    self.set_freq(s, (f + 1) as u8);
                }
            } else {
                let stats = self.stats(c);
                let mut s = stats;
                let ghost n = le16(m0, c as int);
                let ghost k = first_with_sym(m0, stats as int, n - 1, f_sym as u8);
                proof {
                    if case {
                        assert(f_sym == m0[fs as int]);
                        assert(stats as int == le32(m0, c + 4));
                        lemma_first_with_sym(m0, stats as int, n - 1, f_sym as u8);
                    }
                }
                if self.sym(s) != f_sym {
                    s = match find_sym(self, stats.wrapping_add(6), f_sym) {
                        Some(x) => x,
                        None => stats,
                    };
                    proof {
                        if case {
                            assert(s as int == stats + 6 * k && k >= 1) by {
                                assert(stats.wrapping_add(6) as int == stats + 6);
                                assert(state_offset(stats.wrapping_add(6), k - 1) as int == stats + 6 * k);
                                if s == stats {
                                    assert(self.mem.spec_rd8(state_offset(stats.wrapping_add(6), k - 1)) != f_sym);
                                } else {
                                    let kk = choose|kk: int|
                                        0 <= kk < 256 && s == #[trigger] state_offset(stats.wrapping_add(6), kk) && self.mem.spec_rd8(s)
                                            == f_sym && forall|j: int|
                                            0 <= j < kk ==> self.mem.spec_rd8(#[trigger] state_offset(stats.wrapping_add(6), j)) != f_sym;
                                    if kk > k - 1 {
                                        assert(self.mem.spec_rd8(state_offset(stats.wrapping_add(6), k - 1)) != f_sym);
                                    }
                                    if kk < k - 1 {
                                        assert(state_offset(stats.wrapping_add(6), kk) as int == stats + 6 * (kk + 1));
                                        assert(m0[stats + 6 * (kk + 1)] != f_sym);
                                    }
                                }
                            }
                            assert(s.wrapping_sub(6) as int == stats + 6 * (k - 1));
                        }
                    }
                    if s != stats && self.freq(s) >= self.freq(s.wrapping_sub(6)) {
                        self.swap_states(s, s.wrapping_sub(6));
                        s = s.wrapping_sub(6);
                    }
                } else {
                    proof {
                        if case {
                            assert(k == 0) by {
                                if k > 0 {
                                    assert(m0[stats + 6 * 0] != f_sym);
                                }
                            }
                        }
                    }
                }
                let ghost m_sw = self.mem.bytes();
                proof {
                    if case {
                        assert(s.wrapping_add(1) as int == s + 1);
                        assert(c.wrapping_add(2) as int == c + 2);
                    }
                }
                let f = self.freq(s);
                if f < (MAX_FREQ - 9) as u32 {
                    self.set_freq(s, (f + 2) as u8);
                    let ghost m_f = self.mem.bytes();
                    let summ = self.summ_freq(c).wrapping_add(2);
                    self.set_summ_freq(c, (summ % 0x1_0000) as u16);
                    proof {
                        if case {
                            let ci = c as int;
                            assert(m_f[ci + 2] == m_sw[ci + 2] && m_f[ci + 3] == m_sw[ci + 3]);
                            assert(summ == le16(m_sw, ci + 2) + 2);
                        }
                    }
                }
                proof {
                    if case {
                        lemma_suffix_raised7(*old(self), *self, m_sw, s);
                    }
                }
                return Some(s);
            }
        }
        None
    }

    /// Adds the found symbol to the contexts that lacked it and moves on to the
    /// context that follows it. The found state's frequency is raised in the suffix
    /// of the current context; where the model had fallen back to a shorter context,
    /// the symbol is written to the text, the contexts for the longer orders are made,
    /// and each context from the longest down to the current one gets a new state for
    /// the symbol. Where the text reaches the units area or memory runs out, the model
    /// starts over instead.
    #[verifier::spinoff_prover]
    #[verifier::rlimit(100)]
    pub fn update_model(&mut self)
        requires
            old(self).wf(),
        ensures
            frame7(*old(self), *final(self)),
            final(self).min_context == final(self).max_context,
            final(self).run_length == final(self).init_rl || (final(self).run_length == old(self).run_length
                && final(self).init_rl == old(self).init_rl),
            old(self).order_fall != 0 && old(self).text.wrapping_add(1) >= old(self).units_start ==> final(self).started(),
            first_text_step7(*old(self)) ==> text_step_taken7(*old(self), *final(self)),
            one_escape_step7(*old(self)) ==> one_escape_taken7(*old(self), *final(self)),
    {
        let ghost ftx = first_text_step7(*old(self));
        let ghost esc1 = one_escape_step7(*old(self));
        proof {
            if esc1 {
                let fsi = old(self).found_state as int;
                assert(old(self).found_state.wrapping_add(1) as int == fsi + 1);
                assert(old(self).found_state.wrapping_add(2) as int == fsi + 2);
            }
        }
        let fs = self.found_state;
        let f_sym = self.sym(fs);
        let mut f_successor = self.successor(fs);
        self.raise_in_suffix();
        if self.order_fall == 0 {
            match self.create_successors(true) {
                None => {
                    self.restart_model();
                },
                Some(c) => {
                    self.min_context = c;
                    self.max_context = c;
                    let fs = self.found_state;
                    self.set_successor(fs, c);
                },
            }
            return;
        }
        let text = self.text;
        self.mem.wr8(text, f_sym as u8);
        proof {
            if esc1 {
                let m0 = old(self).mem.bytes();
                assert(*self == (Ppmd7 { mem: self.mem, ..*old(self) }));
                assert(self.mem.bytes() == m0.update(text as int, m0[old(self).found_state as int]));
                assert(f_successor as int == le32(m0, old(self).found_state + 2));
            }
        }
        self.text = text.wrapping_add(1);
        let mut successor = self.text;
        if self.text >= self.units_start {
            self.restart_model();
            return;
        }
        if f_successor != 0 {
            if f_successor <= successor {
                match self.create_successors(false) {
                    None => {
                        self.restart_model();
                        return;
                    },
                    Some(cs) => {
                        f_successor = cs;
                    },
                }
            }
            self.order_fall = self.order_fall.wrapping_sub(1);
            if self.order_fall == 0 {
                successor = f_successor;
                if self.max_context != self.min_context {
                    self.text = self.text.wrapping_sub(1);
                }
            }
        } else {
            let fs = self.found_state;
            let ghost before = self.mem.bytes();
            self.set_successor(fs, successor);
            f_successor = self.min_context;
            proof {
                if ftx {
                    let m = self.mem.bytes();
                    let m0 = old(self).mem.bytes();
                    let t = old(self).text as int;
                    assert(m[t] == before[t]);
                    assert(before == m0.update(t, f_sym as u8));
                    assert forall|j: int|
                        0 <= j < m0.len() && j != t && !(fs.wrapping_add(2) <= j < fs.wrapping_add(2) + 4) implies #[trigger] m[j]
                            == m0[j] by {
                        assert(m[j] == before[j]);
                    }
                }
            }
        }
        let ns = self.num_stats(self.min_context);
        let f_freq = self.freq(self.found_state);
        let s0 = self.summ_freq(self.min_context).wrapping_sub(ns).wrapping_sub(f_freq.wrapping_sub(1));
        let mut c = self.max_context;
        let mut fuel: u32 = 0x1_0000;
        let ghost mut first = true;
        proof {
            if esc1 {
                let m0 = old(self).mem.bytes();
                let mci = old(self).min_context as int;
                let m = self.mem.bytes();
                assert(old(self).min_context.wrapping_add(2) as int == mci + 2);
                assert(m[mci] == m0[mci] && m[mci + 1] == m0[mci + 1]);
                assert(m[mci + 2] == m0[mci + 2] && m[mci + 3] == m0[mci + 3]);
                assert(ns == le16(m0, mci));
                assert(s0 == (le16(m0, mci + 2) as u32).wrapping_sub(ns).wrapping_sub(f_freq.wrapping_sub(1)));
            }
        }
        while c != self.min_context && fuel > 0
            invariant
                esc1 == one_escape_step7(*old(self)),
                esc1 ==> ({
                    let m0 = old(self).mem.bytes();
                    let fsi = old(self).found_state as int;
                    let succ = le32(m0, fsi + 2);
                    let mci = old(self).min_context as int;
                    &&& f_freq == m0[fsi + 1]
                    &&& f_sym == m0[fsi]
                    &&& ns == le16(m0, mci)
                    &&& s0 == (le16(m0, mci + 2) as u32).wrapping_sub(ns).wrapping_sub(f_freq.wrapping_sub(1))
                    &&& f_successor == succ
                    &&& successor == (if old(self).order_fall == 1 { succ } else { old(self).text + 1 })
                    &&& self.min_context == old(self).min_context
                }),
                esc1 && first ==> ({
                    let m0 = old(self).mem.bytes();
                    &&& c == old(self).max_context
                    &&& fuel > 0
                    &&& self.mem.bytes() == m0.update(old(self).text as int, m0[old(self).found_state as int])
                    &&& *self == (Ppmd7 {
                        mem: self.mem,
                        text: (if old(self).order_fall == 1 { old(self).text as int } else { old(self).text + 1 }) as u32,
                        order_fall: (old(self).order_fall - 1) as u32,
                        ..*old(self)
                    })
                }),
                esc1 && !first ==> c == self.min_context && one_escape_taken7(
                    *old(self),
                    (Ppmd7 { min_context: f_successor, max_context: f_successor, ..*self }),
                ),
                ftx == first_text_step7(*old(self)),
                ftx ==> c == self.min_context && f_successor == old(self).min_context && text_step_taken7(*old(self), *self),
                frame7(*old(self), *self),
                self.run_length == old(self).run_length,
                self.init_rl == old(self).init_rl,
                f_freq < 256,
                f_sym < 256,
            decreases fuel,
        {
            let ghost was_first = first;
            proof {
                first = false;
            }
            let ghost m_start = self.mem.bytes();
            fuel = fuel - 1;
            let ns1 = self.num_stats(c);
            proof {
                if esc1 && was_first {
                    let m0 = old(self).mem.bytes();
                    let ci = c as int;
                    assert(m_start[ci] == m0[ci] && m_start[ci + 1] == m0[ci + 1]);
                    assert(m_start[ci + 2] == m0[ci + 2] && m_start[ci + 3] == m0[ci + 3]);
                    assert(m_start[ci + 4] == m0[ci + 4] && m_start[ci + 5] == m0[ci + 5] && m_start[ci + 6] == m0[ci + 6]
                        && m_start[ci + 7] == m0[ci + 7]);
                    assert(m_start[ci + 8] == m0[ci + 8] && m_start[ci + 9] == m0[ci + 9] && m_start[ci + 10] == m0[ci + 10]
                        && m_start[ci + 11] == m0[ci + 11]);
                    assert(c.wrapping_add(2) as int == ci + 2);
                    assert(c.wrapping_add(4) as int == ci + 4);
                    assert(c.wrapping_add(8) as int == ci + 8);
                    assert(ns1 == le16(m0, ci));
                }
            }
            if ns1 != 1 {
                if ns1 % 2 == 0 {
                    let old_nu = ns1 / 2;
                    let i = self.u2i(old_nu);
                    if i != self.u2i(old_nu + 1) && i + 1 < PPMD_NUM_INDEXES {
                        let ptr = match self.alloc_units(i + 1) {
                            Some(x) => x,
                            None => {
                                self.restart_model();
                                return;
                            },
                        };
                        let old_ptr = self.stats(c);
                        self.mem.copy(old_ptr, ptr, old_nu.wrapping_mul(UNIT_SIZE));
                        self.insert_node(old_ptr, i);
                        self.set_stats(c, ptr);
                    }
                }
                let summ = self.summ_freq(c);
                let a: u32 = if ns1.wrapping_mul(2) < ns {
                    1
                } else {
                    0
                };
                let b: u32 = if ns1.wrapping_mul(4) <= ns && summ <= ns1.wrapping_mul(8) {
                    2
                } else {
                    0
                };
                self.set_summ_freq(c, summ.wrapping_add(a).wrapping_add(b) as u16);
                proof {
                    if esc1 && was_first {
                        assert(summ == le16(m_start, c as int + 2));
                        assert(c.wrapping_add(2) as int == c as int + 2);
                    }
                }
            } else {
                let s = match self.alloc_units(0) {
                    Some(x) => x,
                    None => {
                        self.restart_model();
                        return;
                    },
                };
                let one = self.one_state(c);
                self.copy_state(one, s);
                self.set_stats(c, s);
                let f = self.freq(s);
                let nf: u32 = if f < (MAX_FREQ / 4 - 1) as u32 {
                    f * 2
                } else {
                    (MAX_FREQ - 4) as u32
                };
                self.set_freq(s, nf as u8);
                let extra: u32 = if ns > 3 {
                    1
                } else {
                    0
                };
                self.set_summ_freq(c, nf.wrapping_add(self.init_esc).wrapping_add(extra) as u16);
            }
            let ghost w1 = self.mem.bytes();
            let summ = self.summ_freq(c);
            let cf = (2u32.wrapping_mul(f_freq)).wrapping_mul(summ.wrapping_add(6));
            let sf = s0.wrapping_add(summ);
            let nf: u32 = if cf < 6u32.wrapping_mul(sf) {
                self.set_summ_freq(c, summ.wrapping_add(3) as u16);
                1 + (if cf > sf { 1u32 } else { 0u32 }) + (if cf >= 4u32.wrapping_mul(sf) { 1u32 } else { 0u32 })
            } else {
                let v = 4 + (if cf >= 9u32.wrapping_mul(sf) { 1u32 } else { 0u32 }) + (if cf >= 12u32.wrapping_mul(sf) {
                    1u32
                } else {
                    0u32
                }) + (if cf >= 15u32.wrapping_mul(sf) { 1u32 } else { 0u32 });
                self.set_summ_freq(c, summ.wrapping_add(v) as u16);
                v
            };
            let ghost w2 = self.mem.bytes();
            let ns1_now = self.num_stats(c);
            let s = self.stats(c).wrapping_add(ns1_now.wrapping_mul(6));
            let ghost s_stats = self.mem.spec_rd32(c.wrapping_add(4));
            self.set_successor(s, successor);
            let ghost w3 = self.mem.bytes();
            self.set_sym(s, f_sym as u8);
            let ghost w4 = self.mem.bytes();
            self.set_freq(s, nf as u8);
            let ghost w5 = self.mem.bytes();
            self.set_num_stats(c, ns1_now.wrapping_add(1) as u16);
            proof {
                if esc1 && was_first {
                    let m0 = old(self).mem.bytes();
                    let m = self.mem.bytes();
                    let ci = c as int;
                    let si = s as int;
                    let t = old(self).text as int;
                    assert(w1[ci] == m_start[ci] && w1[ci + 1] == m_start[ci + 1]);
                    assert(ns1_now == ns1);
                    assert(w2[ci + 4] == m_start[ci + 4] && w2[ci + 5] == m_start[ci + 5] && w2[ci + 6] == m_start[ci + 6]
                        && w2[ci + 7] == m_start[ci + 7]);
                    assert(s_stats as int == le32(m0, ci + 4));
                    assert(si == le32(m0, ci + 4) + 6 * le16(m0, ci));
                    assert(s.wrapping_add(1) as int == si + 1);
                    assert(s.wrapping_add(2) as int == si + 2);
                    assert(added_state7(le16(m0, ci + 2) as u32, ns1, ns, s0, f_freq) == (nf, le16(w2, ci + 2) as u32));
                    assert(m[si] == f_sym) by {
                        assert(m[si] == w5[si] && w5[si] == w4[si]);
                    }
                    assert(m[si + 1] == nf as u8);
                    assert(m[si + 2] == w3[si + 2] && m[si + 3] == w3[si + 3] && m[si + 4] == w3[si + 4] && m[si + 5] == w3[si + 5]) by {
                        assert(m[si + 2] == w5[si + 2] && w5[si + 2] == w4[si + 2]);
                        assert(m[si + 3] == w5[si + 3] && w5[si + 3] == w4[si + 3]);
                        assert(m[si + 4] == w5[si + 4] && w5[si + 4] == w4[si + 4]);
                        assert(m[si + 5] == w5[si + 5] && w5[si + 5] == w4[si + 5]);
                    }
                    assert(le32(m, si + 2) == successor as int);
                    assert(le16(m, ci) == ns1 + 1);
                    assert(m[ci + 2] == w2[ci + 2] && m[ci + 3] == w2[ci + 3]);
                    assert(m[t] == m_start[t]) by {
                        assert(m[t] == w5[t] && w5[t] == w4[t] && w4[t] == w3[t] && w3[t] == w2[t] && w2[t] == w1[t]);
                    }
                    assert forall|x: int| 0 <= x < m0.len() && x != t && !(ci <= x < ci + 4) && !(si <= x < si + 6) implies #[trigger] m[x]
                        == m0[x] by {
                        assert(m[x] == w5[x] && w5[x] == w4[x] && w4[x] == w3[x] && w3[x] == w2[x] && w2[x] == w1[x] && w1[x] == m_start[x]);
                    }
                    assert(m[ci + 8] == m0[ci + 8] && m[ci + 9] == m0[ci + 9] && m[ci + 10] == m0[ci + 10] && m[ci + 11] == m0[ci + 11]);
                }
            }
            c = self.suffix(c);
        }
        self.max_context = f_successor;
        self.min_context = f_successor;
    }

    /// Moves on to the context that follows the found state: directly where the model
    /// is at its longest context and the successor is a context, else through
    /// `update_model`.
    pub fn next_context(&mut self)
        requires
            old(self).wf(),
        ensures
            frame7(*old(self), *final(self)),
            final(self).min_context == final(self).max_context,
            ({
                let c = old(self).mem.spec_rd32(old(self).found_state.wrapping_add(2));
                old(self).order_fall == 0 && c > old(self).text ==> *final(self) == (Ppmd7 {
                    min_context: c,
                    max_context: c,
                    ..*old(self)
                })
            }),
            first_text_step7(*old(self)) ==> text_step_taken7(*old(self), *final(self)),
    {
        let c = self.successor(self.found_state);
        if self.order_fall == 0 && c > self.text {
            self.min_context = c;
            self.max_context = c;
        } else {
            self.update_model();
        }
    }

    /// After a symbol that was not the first of its context: its frequency and the
    /// sum go up by 4, it moves ahead of a state with a lower frequency, the context is
    /// halved where the frequency passes the limit, and the model moves on: to the
    /// state's successor at full order, or, from the shortest context with no
    /// successor yet, one step along the text.
    pub fn update1(&mut self)
        requires
            old(self).wf(),
        ensures
            frame7(*old(self), *final(self)),
            final(self).min_context == final(self).max_context,
            ({
                let s = old(self).found_state;
                let mc = old(self).min_context;
                let f = (old(self).mem.spec_rd8(s.wrapping_add(1)) as u32 + 4) % 256;
                let summ = old(self).mem.spec_rd16(mc.wrapping_add(2)) as u32;
                let next = old(self).mem.spec_rd32(s.wrapping_add(2));
                s >= 6 && fits((s - 6) as u32, 12, old(self).mem.bytes().len()) && fits(mc.wrapping_add(2), 2, old(self).mem.bytes().len())
                    && apart((s - 6) as u32, 12, mc.wrapping_add(2), 2) && f <= old(self).mem.spec_rd8((s - 5) as u32)
                    && old(self).order_fall == 0 && next > old(self).text ==> {
                    &&& final(self).mem.spec_rd8(s.wrapping_add(1)) == f
                    &&& final(self).mem.spec_rd16(mc.wrapping_add(2)) == summ.wrapping_add(4) as u16
                    &&& final(self).found_state == s
                    &&& final(self).min_context == next
                }
            }),
            ({
                let m0 = old(self).mem.bytes();
                let m = final(self).mem.bytes();
                let s = old(self).found_state;
                let mc = old(self).min_context;
                let t = old(self).text;
                let f = old(self).mem.spec_rd8(s.wrapping_add(1)) as u32;
                let summ = old(self).mem.spec_rd16(mc.wrapping_add(2)) as u32;
                let moved = f + 4 > old(self).mem.spec_rd8((s - 5) as u32);
                let fs = (if moved { s - 6 } else { s as int }) as u32;
                s >= 6 && fits(s, 6, m0.len()) && mc + 12 <= m0.len() && apart((s - 6) as u32, 12, mc, 12) && apart(
                    t,
                    1,
                    (s - 6) as u32,
                    12,
                ) && apart(t, 1, mc, 12) && f + 4 <= MAX_FREQ && first_text_step7(*old(self)) ==> {
                    &&& final(self).mem.spec_rd8(fs) == old(self).mem.spec_rd8(s)
                    &&& final(self).mem.spec_rd8((fs + 1) as u32) == f + 4
                    &&& final(self).mem.spec_rd32((fs + 2) as u32) == t + 1
                    &&& moved ==> final(self).mem.spec_rd8(s) == old(self).mem.spec_rd8((s - 6) as u32)
                        && final(self).mem.spec_rd8((s + 1) as u32) == old(self).mem.spec_rd8((s - 5) as u32)
                        && final(self).mem.spec_rd32((s + 2) as u32) == old(self).mem.spec_rd32((s - 4) as u32)
                    &&& final(self).mem.spec_rd16(mc.wrapping_add(2)) == summ.wrapping_add(4) as u16
                    &&& final(self).mem.spec_rd8(t) == old(self).mem.spec_rd8(s)
                    &&& forall|x: int|
                        0 <= x < m0.len() && x != t && !(s - 6 <= x < s + 6) && !(mc + 2 <= x < mc + 4) ==> #[trigger] m[x]
                            == m0[x]
                    &&& *final(self) == (Ppmd7 { text: (t + 1) as u32, found_state: fs, mem: final(self).mem, ..*old(self) })
                }
            }),
    {
        let ghost tx = self.found_state >= 6 && fits(self.found_state, 6, self.mem.bytes().len()) && self.min_context + 12
            <= self.mem.bytes().len() && apart((self.found_state - 6) as u32, 12, self.min_context, 12) && apart(
            self.text,
            1,
            (self.found_state - 6) as u32,
            12,
        ) && apart(self.text, 1, self.min_context, 12) && self.mem.spec_rd8(self.found_state.wrapping_add(1)) + 4 <= MAX_FREQ
            && first_text_step7(*self);
        let s = self.found_state;
        let f = (self.freq(s) + 4) % 256;
        let ghost m0 = self.mem.bytes();
        self.set_freq(s, f as u8);
        let ghost m1 = self.mem.bytes();
        let mc = self.min_context;
        let summ = self.summ_freq(mc).wrapping_add(4);
        self.set_summ_freq(mc, summ as u16);
        proof {
            let m2 = self.mem.bytes();
            let si = s as int;
            if s >= 6 && fits((s - 6) as u32, 12, m0.len()) && fits(mc.wrapping_add(2), 2, m0.len()) && apart(
                (s - 6) as u32,
                12,
                mc.wrapping_add(2),
                2,
            ) {
                assert(s.wrapping_add(1) == s + 1 && s.wrapping_add(2) == s + 2 && s.wrapping_sub(6) == s - 6);
                assert(m2[si - 5] == m1[si - 5] && m1[si - 5] == m0[si - 5]);
                assert(m2[si + 1] == m1[si + 1]);
                assert forall|k: int| 2 <= k < 6 implies #[trigger] m2[si + k] == m0[si + k] by {
                    assert(m2[si + k] == m1[si + k]);
                }
                assert(m2[si + 2] == m0[si + 2] && m2[si + 3] == m0[si + 3] && m2[si + 4] == m0[si + 4] && m2[si + 5] == m0[si + 5]);
            }
        }
        let ghost m2 = self.mem.bytes();
        proof {
            if tx {
                let si = s as int;
                let c2 = mc + 2;
                assert(mc.wrapping_add(2) as int == c2);
                assert forall|x: int| 0 <= x < m0.len() && x != si + 1 && !(c2 <= x < c2 + 2) implies #[trigger] m2[x] == m0[x] by {
                    assert(m2[x] == m1[x]);
                }
            }
        }
        if f > self.freq(s.wrapping_sub(6)) {
            self.swap_states(s, s.wrapping_sub(6));
            self.found_state = s.wrapping_sub(6);
            if f > MAX_FREQ as u32 {
                self.rescale();
            }
        }
        let ghost pre = *self;
        proof {
            if tx {
                let m = self.mem.bytes();
                let si = s as int;
                let c8 = mc + 8;
                assert(s.wrapping_sub(6) as int == si - 6);
                assert(mc.wrapping_add(8) as int == c8);
                assert forall|x: int| 0 <= x < m0.len() && !(si - 6 <= x < si + 6) && !(mc + 2 <= x < mc + 4) implies #[trigger] m[x]
                    == m0[x] by {
                    assert(m[x] == m2[x]);
                }
                assert(m[c8] == m0[c8] && m[c8 + 1] == m0[c8 + 1] && m[c8 + 2] == m0[c8 + 2] && m[c8 + 3] == m0[c8 + 3]);
                assert(self.mem.spec_rd32(mc.wrapping_add(8)) == 0);
                assert(self.mem.spec_rd32(self.found_state.wrapping_add(2)) == 0);
                assert(first_text_step7(*self));
            }
        }
        self.next_context();
        proof {
            if tx {
                let m = self.mem.bytes();
                let mp = pre.mem.bytes();
                let fs = pre.found_state as int;
                assert(text_step_taken7(pre, *self));
                assert(m[fs] == mp[fs] && m[fs + 1] == mp[fs + 1]);
                assert(m[mc + 2] == mp[mc + 2] && m[mc + 3] == mp[mc + 3]);
            }
        }
    }

    /// After the first symbol of a context with more than one state: whether it was
    /// likely is counted into the run, its frequency and the sum go up by 4, the
    /// context is halved where the frequency passes the limit, and the model moves on:
    /// to the state's successor at full order, or, from the shortest context with no
    /// successor yet, one step along the text.
    pub fn update1_0(&mut self)
        requires
            old(self).wf(),
        ensures
            frame7(*old(self), *final(self)),
            final(self).min_context == final(self).max_context,
            first_state_updated7(*old(self), *final(self)),
    {
        let ghost tstep = fits(self.found_state, 6, self.mem.bytes().len()) && fits(self.min_context.wrapping_add(2), 2, self.mem.bytes().len())
            && apart(self.found_state, 6, self.min_context.wrapping_add(2), 2) && apart(self.text, 1, self.found_state, 6) && apart(
            self.text,
            1,
            self.min_context.wrapping_add(2),
            2,
        ) && apart(self.min_context.wrapping_add(8), 4, self.found_state, 6) && apart(
            self.min_context.wrapping_add(8),
            4,
            self.min_context.wrapping_add(2),
            2,
        ) && first_text_step7(*self);
        let s = self.found_state;
        let mc = self.min_context;
        let summ = self.summ_freq(mc);
        let f = self.freq(s);
        self.prev_success = if 2 * f > summ {
            1
        } else {
            0
        };
        self.run_length = self.run_length.wrapping_add(self.prev_success as i32);
        let ghost m0 = self.mem.bytes();
        self.set_summ_freq(mc, summ.wrapping_add(4) as u16);
        let ghost m1 = self.mem.bytes();
        let nf = (f + 4) % 256;
        self.set_freq(s, nf as u8);
        proof {
            let m2 = self.mem.bytes();
            let si = s as int;
            let ci = mc as int;
            if fits(s, 6, m0.len()) && fits(mc.wrapping_add(2), 2, m0.len()) && apart(s.wrapping_add(1), 5, mc.wrapping_add(2), 2) {
                assert(s.wrapping_add(1) == s + 1 && s.wrapping_add(2) == s + 2);
                let c2 = mc.wrapping_add(2) as int;
                assert(m2[c2] == m1[c2] && m2[c2 + 1] == m1[c2 + 1]);
                assert forall|k: int| 2 <= k < 6 implies #[trigger] m2[si + k] == m0[si + k] by {
                    assert(m2[si + k] == m1[si + k]);
                }
                assert(m2[si + 2] == m0[si + 2] && m2[si + 3] == m0[si + 3] && m2[si + 4] == m0[si + 4] && m2[si + 5] == m0[si + 5]);
            }
        }
        proof {
            if tstep {
                let m2 = self.mem.bytes();
                let si = s as int;
                let c8 = mc.wrapping_add(8) as int;
                let c2 = mc.wrapping_add(2) as int;
                assert(s.wrapping_add(1) == s + 1 && s.wrapping_add(2) == s + 2);
                if fits(mc.wrapping_add(8), 4, m0.len()) {
                    assert(m2[c8] == m0[c8] && m2[c8 + 1] == m0[c8 + 1] && m2[c8 + 2] == m0[c8 + 2] && m2[c8 + 3] == m0[c8 + 3]) by {
                        assert(m1[c8] == m0[c8] && m1[c8 + 1] == m0[c8 + 1] && m1[c8 + 2] == m0[c8 + 2] && m1[c8 + 3] == m0[c8 + 3]);
                    }
                }
                assert(m2[si] == m0[si]) by {
                    assert(m1[si] == m0[si]);
                }
                assert(m2[c2] == m1[c2] && m2[c2 + 1] == m1[c2 + 1]);
                assert(first_text_step7(*self));
            }
        }
        let ghost pre = *self;
        if nf > MAX_FREQ as u32 {
            self.rescale();
        }
        self.next_context();
        proof {
            if tstep && nf <= MAX_FREQ {
                let m = self.mem.bytes();
                let mp = pre.mem.bytes();
                let si = s as int;
                let c2 = mc.wrapping_add(2) as int;
                assert(text_step_taken7(pre, *self));
                assert(m[si + 1] == mp[si + 1]);
                assert(m[c2] == mp[c2] && m[c2 + 1] == mp[c2 + 1]);
            }
        }
    }

    /// After the symbol of a context with one state `s`: its frequency goes up by one
    /// below 128, the run grows, and the model moves on.
    pub fn update_bin(&mut self, s: u32)
        requires
            old(self).wf(),
        ensures
            frame7(*old(self), *final(self)),
            final(self).min_context == final(self).max_context,
            binary_state_updated7(*old(self), *final(self), s),
    {
        self.found_state = s;
        let f = self.freq(s);
        let ghost m0 = self.mem.bytes();
        if f < 128 {
            self.set_freq(s, (f + 1) as u8);
        }
        proof {
            if s as int + 6 <= m0.len() {
                let m = self.mem.bytes();
                let si = s as int;
                assert(s.wrapping_add(1) == s + 1);
                assert(s.wrapping_add(2) == s + 2);
                assert(m[si + 2] == m0[si + 2] && m[si + 3] == m0[si + 3] && m[si + 4] == m0[si + 4] && m[si + 5] == m0[si + 5]);
            }
        }
        self.prev_success = 1;
        self.run_length = self.run_length.wrapping_add(1);
        self.next_context();
    }

    /// After a symbol found past an escape: its frequency and the sum go up by 4, the
    /// context is halved where the frequency passes the limit, the run starts over, and
    /// the model grows.
    pub fn update2(&mut self)
        requires
            old(self).wf(),
        ensures
            frame7(*old(self), *final(self)),
            final(self).min_context == final(self).max_context,
            final(self).run_length == final(self).init_rl,
            old(self).order_fall != 0 && old(self).text.wrapping_add(1) >= old(self).units_start ==> final(self).started(),
            plain_escape_step7(*old(self)) ==> ({
                let fs = old(self).found_state;
                let c2 = old(self).min_context.wrapping_add(2);
                &&& *final(self) == (Ppmd7 {
                    mem: final(self).mem,
                    text: (old(self).text + 1) as u32,
                    run_length: old(self).init_rl,
                    ..*old(self)
                })
                &&& final(self).mem.spec_rd8(fs.wrapping_add(1)) == old(self).mem.spec_rd8(fs.wrapping_add(1)) + 4
                &&& final(self).mem.spec_rd16(c2) == (old(self).mem.spec_rd16(c2) as u32).wrapping_add(4) as u16
                &&& final(self).mem.spec_rd8(old(self).text) == old(self).mem.spec_rd8(fs)
                &&& final(self).mem.spec_rd32(fs.wrapping_add(2)) == old(self).text + 1
            }),
    {
        let s = self.found_state;
        let mc = self.min_context;
        let nf = (self.freq(s) + 4) % 256;
        let ghost m0 = self.mem.bytes();
        self.set_freq(s, nf as u8);
        let ghost m1 = self.mem.bytes();
        let summ = self.summ_freq(mc).wrapping_add(4);
        self.set_summ_freq(mc, summ as u16);
        if nf > MAX_FREQ as u32 {
            self.rescale();
        }
        self.run_length = self.init_rl;
        let ghost pre = *self;
        proof {
            if plain_escape_step7(*old(self)) {
                let m = self.mem.bytes();
                let fs2 = s.wrapping_add(2) as int;
                let c8 = mc.wrapping_add(8) as int;
                let c2 = mc.wrapping_add(2) as int;
                let f1 = s.wrapping_add(1) as int;
                assert(m[fs2] == m0[fs2] && m[fs2 + 1] == m0[fs2 + 1] && m[fs2 + 2] == m0[fs2 + 2] && m[fs2 + 3] == m0[fs2 + 3]);
                if fits(mc.wrapping_add(8), 4, m.len()) {
                    assert(m[c8] == m0[c8] && m[c8 + 1] == m0[c8 + 1] && m[c8 + 2] == m0[c8 + 2] && m[c8 + 3] == m0[c8 + 3]);
                }
                if fits(s, 1, m.len()) {
                    assert(m[s as int] == m0[s as int]);
                }
                assert(self.mem.spec_rd8(s) == old(self).mem.spec_rd8(s));
                assert(self.mem.spec_rd32(s.wrapping_add(2)) == 0);
                assert(self.mem.spec_rd32(mc.wrapping_add(8)) == 0);
                assert(first_text_step7(*self));
                assert(m[f1] == m1[f1]);
                assert(self.mem.spec_rd8(s.wrapping_add(1)) == nf);
            }
        }
        self.update_model();
        proof {
            if plain_escape_step7(*old(self)) {
                let m = self.mem.bytes();
                let mp = pre.mem.bytes();
                let c2 = mc.wrapping_add(2) as int;
                let f1 = s.wrapping_add(1) as int;
                assert(m[c2] == mp[c2] && m[c2 + 1] == mp[c2 + 1]);
                assert(m[f1] == mp[f1]);
            }
        }
    }
}

} // verus!

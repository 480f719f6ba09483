//! The steps of PPMd8 symbol coding that adapt the model to a coded symbol: the
//! frequency updates, the rescaling of a context whose frequencies grew too large,
//! the escape estimators and binary context probabilities, and the move to the next
//! context.
//!
//! As elsewhere, the model memory may be inconsistent after a corrupt stream; walks
//! over the states of a context stop after the 256 states a context can hold.

use vstd::prelude::*;
use vstd::multiset::Multiset;

use super::model::{hi_bits_flag3, Ppmd8};
use super::units::{old_block_bytes, shrink_moves, shrink_target};
use super::update::{freq_sum, lemma_freq_sum_frame, lemma_freq_sum_moved, mem_only, model_frame, state_at, STATE_SIZE};
use super::arena::{fits, le16, le32, Arena};
use super::grow::{first_text_step, text_step_taken};
use vstd::arithmetic::div_mod::{lemma_add_mod_noop, lemma_mod_mod, lemma_small_mod, lemma_sub_mod_noop};
use super::{
    lemma_ns_start_monotone, lemma_ns_start_values, ns2index_wf, See, SeeSource,
    FLAG_PREV_HIGH, FLAG_RESCALED, MAX_FREQ,
};

verus! {

/// `update2` from the shortest context, whose found state has no successor yet and
/// stays within the frequency limit after its raise: the raised frequency and the
/// context's sum lie apart from the symbol, the text byte, the found state's successor
/// and the context's suffix field.
pub open spec fn plain_escape_step<RC>(p: Ppmd8<RC>) -> bool {
    let len = p.mem.bytes().len();
    let fs = p.found_state;
    let f1 = fs.wrapping_add(1);
    let fs2 = fs.wrapping_add(2);
    let c2 = p.min_context.wrapping_add(2);
    let c8 = p.min_context.wrapping_add(8);
    &&& first_text_step(p)
    &&& p.mem.spec_rd8(f1) + 4 <= MAX_FREQ
    &&& fits(f1, 1, len)
    &&& fits(c2, 2, len)
    &&& (f1 < fs2 || fs2 + 4 <= f1)
    &&& (f1 < c8 || c8 + 4 <= f1)
    &&& f1 != p.text
    &&& (c2 + 2 <= fs2 || fs2 + 4 <= c2)
    &&& (c2 + 2 <= c8 || c8 + 4 <= c2)
    &&& (c2 + 2 <= p.text || p.text + 1 <= c2)
    &&& (c2 + 2 <= f1 || f1 + 1 <= c2)
    &&& (c2 + 2 <= fs || fs + 1 <= c2)
}

/// The escape frequency an estimator gives: its sum scaled down by its shift.
pub open spec fn see_escape(e: See) -> u32 {
    if e.shift < 32 {
        (e.summ as u32) >> (e.shift as u32)
    } else {
        0
    }
}

/// The column of the escape estimators for a context: whether its frequencies are
/// high for its number of states, whether it has few states next to its suffix and
/// the masked symbols, and its flags.
pub open spec fn see_column(summ: int, num_stats: int, suffix_num_stats: int, num_masked: int, flags: int) -> int {
    (if summ > 11 * (num_stats + 1) {
        1int
    } else {
        0int
    }) + 2 * (if 2 * num_stats < suffix_num_stats + num_masked {
        1int
    } else {
        0int
    }) + flags
}

/// The column of the binary context probabilities: the last symbol's success, the
/// sign of the run length, the size of the suffix and the context's flags, added
/// modulo 2^32.
pub open spec fn bin_column(prev_success: u32, run_length: i32, suffix_class: u32, flags: u32) -> u32 {
    prev_success.wrapping_add(((run_length as u32) >> 26u32) & 0x20u32).wrapping_add(suffix_class).wrapping_add(flags)
}

/// How many pairs of states `mask_symbols` walks from `s2` towards `s`: at least one,
/// and as many as it takes to reach `s`.
pub open spec fn mask_rounds(s: u32, s2: u32) -> int {
    if s2 >= s {
        1
    } else {
        (s - s2 + 11) / 12
    }
}

/// Whether `mask_symbols` clears `j`: it is the symbol of the state at `s`, or of one
/// of the states in the first `n` pairs from `s2` on.
pub open spec fn masked_by<RC>(p: Ppmd8<RC>, s: u32, s2: u32, n: int, j: int) -> bool {
    ||| j == p.mem.spec_rd8(s)
    ||| exists|k: int|
        0 <= k < n && (j == p.mem.spec_rd8(#[trigger] ((s2 + 12 * k) as u32)) || j == p.mem.spec_rd8(
            ((s2 + 12 * k) as u32).wrapping_add(6),
        ))
}

/// A frequency of a binary context's state that has a row in `bin_summ`.
pub open spec fn freq_in_table(freq: int) -> bool {
    1 <= freq < 215
}

/// The frequency of state `j` of the block of states at `base` in the memory `m`.
pub open spec fn state_freq(m: Seq<u8>, base: int, j: int) -> int {
    m[base + 6 * j + 1] as int
}

/// The first `n` states from `base` are in nonincreasing order of frequency.
pub open spec fn sorted_by_freq(m: Seq<u8>, base: int, n: int) -> bool {
    forall|a: int, b: int| 0 <= a < b < n ==> #[trigger] state_freq(m, base, a) >= #[trigger] state_freq(m, base, b)
}

/// Every one of the first `n` states from `base` has a frequency of at least `v`.
pub open spec fn all_at_least(m: Seq<u8>, base: int, n: int, v: int) -> bool {
    forall|j: int| 0 <= j < n ==> #[trigger] state_freq(m, base, j) >= v
}

/// The states of the current context lie inside the memory, apart from the 12
/// bytes of the context itself.
pub open spec fn rescale_apart(mc: u32, stats: u32, k: int, len: nat) -> bool {
    &&& stats + 6 * k <= len
    &&& mc + 12 <= len
    &&& (mc + 12 <= stats || stats + 6 * k <= mc)
}

/// One where the model has fallen back from a longer order, so that `rescale` rounds
/// halved frequencies up; zero at full order.
pub open spec fn rescale_adder<RC>(p: Ppmd8<RC>) -> int {
    if p.order_fall != 0 { 1 } else { 0 }
}

/// The current context of `p` has more than one state, lying apart from the context
/// inside the memory, and the found state is one of them.
pub open spec fn rescale_in_place<RC>(p: Ppmd8<RC>) -> bool {
    let m = p.mem.bytes();
    let mc = p.min_context;
    let stats = p.mem.spec_rd32(mc.wrapping_add(4));
    let n = p.mem.spec_rd8(mc) as int;
    &&& 1 <= n
    &&& rescale_apart(mc, stats, n + 1, m.len())
    &&& stats <= p.found_state < stats + 6 * (n + 1)
    &&& (p.found_state - stats) % 6 == 0
}

/// The case of `rescale` in which no state is dropped: `rescale_in_place` holds and
/// no state but the found one has a frequency that falls to zero when halved (each is
/// at least one, or at least two at full order).
pub open spec fn rescale_keeps_all<RC>(p: Ppmd8<RC>) -> bool {
    let m = p.mem.bytes();
    let mc = p.min_context;
    let stats = p.mem.spec_rd32(mc.wrapping_add(4));
    let n = p.mem.spec_rd8(mc) as int;
    &&& rescale_in_place(p)
    &&& forall|j: int|
        0 <= j <= n && j != (p.found_state - stats) / 6 ==> (#[trigger] state_freq(m, stats as int, j) + rescale_adder(p))
            / 2 >= 1
}

/// Where the frequencies of the first `len` states of `m` are those of `m0` with
/// state `i` moved back to `p` and the states between moved up by one, the sums up
/// to each count agree with `m0` before `p` and are one state behind after it.
proof fn lemma_rotated_prefix(m: Seq<u8>, m0: Seq<u8>, base: int, p: int, i: int, k: int)
    requires
        0 <= p <= i,
        0 <= k <= i + 1,
        forall|j: int| 0 <= j < p ==> #[trigger] state_freq(m, base, j) == state_freq(m0, base, j),
        state_freq(m, base, p) == state_freq(m0, base, i),
        forall|j: int| p < j <= i ==> #[trigger] state_freq(m, base, j) == state_freq(m0, base, j - 1),
    ensures
        k <= p ==> freq_sum(m, base, k) == freq_sum(m0, base, k),
        k > p ==> freq_sum(m, base, k) == freq_sum(m0, base, k - 1) + state_freq(m0, base, i),
    decreases k,
{
    if k > 0 {
        lemma_rotated_prefix(m, m0, base, p, i, k - 1);
        if k - 1 < p {
            assert(state_freq(m, base, k - 1) == state_freq(m0, base, k - 1));
        } else if k - 1 > p {
            assert(state_freq(m, base, k - 1) == state_freq(m0, base, k - 2));
        }
    }
}

/// Moving state `i` back to `p`, the states between moving up by one, keeps the sum
/// of the frequencies of the first `len` states.
proof fn lemma_rotation_keeps_sum(m: Seq<u8>, m0: Seq<u8>, base: int, p: int, i: int, len: int)
    requires
        0 <= p <= i < len,
        forall|j: int| 0 <= j < len && (j < p || j > i) ==> #[trigger] state_freq(m, base, j) == state_freq(m0, base, j),
        state_freq(m, base, p) == state_freq(m0, base, i),
        forall|j: int| p < j <= i ==> #[trigger] state_freq(m, base, j) == state_freq(m0, base, j - 1),
    ensures
        freq_sum(m, base, len) == freq_sum(m0, base, len),
    decreases len,
{
    if len > i + 1 {
        lemma_rotation_keeps_sum(m, m0, base, p, i, len - 1);
        assert(state_freq(m, base, len - 1) == state_freq(m0, base, len - 1));
    } else {
        lemma_rotated_prefix(m, m0, base, p, i, i + 1);
    }
}

/// The sum of a context that `rescale` kept whole: the sum `new_sum` of the new
/// frequencies plus the escape frequency `esc` (the old sum less the old frequencies,
/// taken modulo 2^32) less half of it, rounding down, taken modulo 2^16.
pub open spec fn rescaled_summ(new_sum: int, esc: int) -> int {
    let e = esc % 0x1_0000_0000;
    (new_sum + e - e / 2) % 0x1_0000
}

/// The found state and the current context of `p` lie inside the memory and apart,
/// and the model is at full order: the case in which an update that needs no
/// rescale moves straight on to the found state's successor where it is a context.
pub open spec fn fast_update_apart<RC>(p: Ppmd8<RC>) -> bool {
    let len = p.mem.bytes().len();
    let s = p.found_state;
    let mc = p.min_context;
    &&& s + 6 <= len
    &&& mc + 12 <= len
    &&& (mc + 12 <= s || s + 6 <= mc)
    &&& p.order_fall == 0
}

/// The found state, the current context and the text position of `p` lie inside
/// the memory and apart from each other.
pub open spec fn text_update_apart<RC>(p: Ppmd8<RC>) -> bool {
    let len = p.mem.bytes().len();
    let s = p.found_state;
    let mc = p.min_context;
    let t = p.text;
    &&& s + 6 <= len
    &&& mc + 12 <= len
    &&& (mc + 12 <= s || s + 6 <= mc)
    &&& (t + 1 <= s || s + 6 <= t)
    &&& (t + 1 <= mc || mc + 12 <= t)
}

/// The found state of `p`, the state before it and the current context lie inside
/// the memory and apart from each other.
pub open spec fn update1_apart<RC>(p: Ppmd8<RC>) -> bool {
    let len = p.mem.bytes().len();
    let s = p.found_state;
    let mc = p.min_context;
    &&& s + 6 <= len
    &&& mc + 12 <= len
    &&& s >= 6
    &&& (mc + 12 <= s - 6 || s + 6 <= mc)
}

/// The states of the block of `n` states at `base` in the memory `m`, in order.
pub open spec fn states_of(m: Seq<u8>, base: int, n: int) -> Seq<(u8, u8, int)> {
    Seq::new(n as nat, |j: int| state_at(m, base + 6 * j))
}

/// Two states whose six bytes agree are the same state.
pub proof fn lemma_same_state(m1: Seq<u8>, a: int, m2: Seq<u8>, b: int)
    requires
        forall|x: int| a <= x < a + 6 ==> #[trigger] m1[x] == m2[x - a + b],
    ensures
        state_at(m1, a) == state_at(m2, b),
{
    assert(m1[a] == m2[b]);
    assert(m1[a + 1] == m2[b + 1]);
    assert(m1[a + 2] == m2[b + 2]);
    assert(m1[a + 3] == m2[b + 3]);
    assert(m1[a + 4] == m2[b + 4]);
    assert(m1[a + 5] == m2[b + 5]);
}

/// Moving one element of a sequence to another place keeps its multiset.
proof fn lemma_move_keeps_multiset<A>(s: Seq<A>, i: int, p: int)
    requires
        0 <= i < s.len(),
        0 <= p < s.len(),
    ensures
        s.remove(i).insert(p, s[i]).to_multiset() == s.to_multiset(),
{
    broadcast use vstd::multiset::group_multiset_axioms;

    vstd::seq_lib::to_multiset_remove(s, i);
    vstd::seq_lib::to_multiset_insert(s.remove(i), p, s[i]);
    vstd::seq_lib::to_multiset_contains(s, s[i]);
    assert(s.contains(s[i]));
    assert(s.to_multiset().remove(s[i]).insert(s[i]) =~= s.to_multiset());
}

/// The states of the current context of `a` as `rescale` halves them, in their old
/// order, before it drops those whose frequency fell to zero.
pub open spec fn halved_states<RC>(a: Ppmd8<RC>) -> Seq<(u8, u8, int)> {
    let m0 = a.mem.bytes();
    let mc = a.min_context;
    let stats = a.mem.spec_rd32(mc.wrapping_add(4)) as int;
    let n = m0[mc as int] as int;
    Seq::new(
        (n + 1) as nat,
        |j: int| halved_state(state_at(m0, stats + 6 * j), j == (a.found_state - stats) / 6, rescale_adder(a)),
    )
}

/// The frequency `rescale` gives the one state a context keeps: twice its halved
/// frequency `f` over the escape frequency `e` (taken modulo 2^32), rounded up and at
/// most 41; 41 where that escape frequency is zero.
pub open spec fn binary_freq(f: int, e: int) -> int {
    let e2 = e % 0x1_0000_0000;
    if e2 == 0 {
        41
    } else {
        let q = (2 * f) / e2 + (if (2 * f) % e2 != 0 { 1int } else { 0int });
        if q > 41 { 41 } else { q }
    }
}

/// Where `rescale` keeps `k` of the states of the current context of `a` in fewer
/// units than they had, the old block and the block the states move to lie inside
/// the memory and apart from the context, and a moved block apart from the start of
/// the old one.
pub open spec fn rescale_target_apart<RC>(a: Ppmd8<RC>, k: int) -> bool {
    let m0 = a.mem.bytes();
    let len = m0.len();
    let mc = a.min_context as int;
    let stats = a.mem.spec_rd32(a.min_context.wrapping_add(4)) as int;
    let n = m0[mc] as int;
    let n0 = ((n + 2) / 2) as u32;
    let n1 = ((k + 1) / 2) as u32;
    let blk = old_block_bytes(a, n0, n1);
    let p = shrink_target(a, stats as u32, n0, n1) as int;
    let nb = n1 * 12;
    n0 != n1 ==> {
        &&& stats + blk <= len
        &&& (mc + 12 <= stats || stats + blk <= mc)
        &&& p + nb <= len
        &&& (mc + 12 <= p || p + nb <= mc)
        &&& (shrink_moves(a, n0, n1) ==> (p + nb <= stats || stats + 12 <= p))
    }
}

/// The current context `mc` of `p` holds `n + 1` states at `stats`, lying apart from
/// it inside the memory, sorted by frequency, the first with a frequency and the last
/// without.
pub open spec fn drop_ok<RC>(p: Ppmd8<RC>, mc: u32, stats: u32, n: u32) -> bool {
    let m = p.mem.bytes();
    &&& p.min_context == mc
    &&& p.mem.spec_rd8(mc) == n
    &&& p.mem.spec_rd32(mc.wrapping_add(4)) == stats
    &&& rescale_apart(mc, stats, n + 1, m.len())
    &&& sorted_by_freq(m, stats as int, n + 1)
    &&& state_freq(m, stats as int, 0) >= 1
    &&& state_freq(m, stats as int, n as int) == 0
}

/// The states of a multiset `h` whose frequency is above zero.
pub open spec fn nonzero_part(h: Multiset<(u8, u8, int)>) -> Multiset<(u8, u8, int)> {
    h.filter(|x: (u8, u8, int)| x.1 > 0)
}

/// What `rescale` makes of the current context of `a` (see `rescale_in_place`), in
/// `b`. It keeps the `k` states of `halved_states` whose frequency is above zero.
/// Where that is more than one, they stand sorted by frequency at the context's
/// states, which stay where they were or move to a smaller block
/// (`rescale_target_apart`), the first of them the found state; the escape frequency gains one
/// for each state dropped, the sum is recounted (`rescaled_summ`) and the context is
/// marked as rescaled. Where one state is left, the context becomes binary: the
/// state, with its frequency from `binary_freq`, moves into the context, the flags
/// keep only the bit for a high previous symbol and get that for a high symbol, and
/// the block of states goes back to its free list.
///
/// Opaque, so that callers that do not need it do not reason about it.
#[verifier::opaque]
pub open spec fn rescaled<RC>(a: Ppmd8<RC>, b: Ppmd8<RC>) -> bool {
    let m0 = a.mem.bytes();
    let m = b.mem.bytes();
    let mc = a.min_context;
    let stats = a.mem.spec_rd32(mc.wrapping_add(4)) as int;
    let n = m0[mc as int] as int;
    let h = halved_states(a);
    let kept = nonzero_part(h.to_multiset());
    let k = kept.len() as int;
    let e = le16(m0, mc + 2) - freq_sum(m0, stats, n + 1) + (n + 1 - k);
    let n0 = ((n + 2) / 2) as u32;
    let n1 = ((k + 1) / 2) as u32;
    &&& 1 <= k <= n + 1
    &&& if k >= 2 {
        let p = b.found_state as int;
        &&& le32(m, mc + 4) == p
        &&& p == (if n0 == n1 { stats } else { shrink_target(a, stats as u32, n0, n1) as int })
        &&& rescale_target_apart(a, k) ==> {
            &&& m[mc as int] == k - 1
            &&& states_of(m, p, k).to_multiset() == kept
            &&& sorted_by_freq(m, p, k)
            &&& all_at_least(m, p, k, 1)
            &&& le16(m, mc + 2) == rescaled_summ(freq_sum(m, p, k), e)
            &&& m[mc + 1] as u32 == (m0[mc + 1] as u32 | 4)
        }
    } else {
        let ht = h[(a.found_state - stats) / 6];
        &&& m[mc as int] == 0
        &&& b.found_state == mc + 2
        &&& state_at(m, mc + 2) == (ht.0, binary_freq(ht.1 as int, e) as u8, ht.2)
        &&& m[mc + 1] as u32 == ((m0[mc + 1] as u32) & 16) + (if ht.0 >= 0x40 { 8u32 } else { 0u32 })
        &&& b.free_list@[a.units2index@[n0 - 1] as int] == stats
    }
}

/// Where no state's frequency falls to zero, what `rescale` makes of a context is
/// what `rescaled_whole` says.
proof fn lemma_whole_from_rescaled<RC>(a: Ppmd8<RC>, b: Ppmd8<RC>)
    requires
        a.wf(),
        rescale_keeps_all(a),
        rescaled(a, b),
    ensures
        rescaled_whole(a, b),
{
    broadcast use vstd::multiset::group_multiset_axioms;

    reveal(rescaled);
    reveal(rescaled_whole);
    let m0 = a.mem.bytes();
    let mc = a.min_context;
    let stats = a.mem.spec_rd32(mc.wrapping_add(4)) as int;
    let n = m0[mc as int] as int;
    let h = halved_states(a);
    let t = (a.found_state - stats) / 6;
    assert(mc.wrapping_add(4) as int == mc + 4);
    assert(m0[mc as int] == a.mem.spec_rd8(mc));
    assert forall|j: int| 0 <= j < h.len() implies (#[trigger] h[j]).1 > 0 by {
        if j != t {
            assert((state_freq(m0, stats, j) + rescale_adder(a)) / 2 >= 1);
        }
    }
    assert(nonzero_part(h.to_multiset()) =~= h.to_multiset()) by {
        assert forall|x: (u8, u8, int)| #[trigger] nonzero_part(h.to_multiset()).count(x) == h.to_multiset().count(x) by {
            vstd::seq_lib::to_multiset_contains(h, x);
            if x.1 == 0 && h.contains(x) {
                let j = choose|j: int| 0 <= j < h.len() && h[j] == x;
                assert(h[j].1 > 0);
            }
        }
    }
    vstd::seq_lib::to_multiset_len(h);
}

/// A block of `n + 1` states with state `t` moved to the front and the rest of the
/// memory as it was: the states after `t` are where they were, the sum of the
/// frequencies is the same, and the memory outside the block is unchanged.
pub proof fn lemma_front_block(m: Seq<u8>, m0: Seq<u8>, base: int, t: int, n: int)
    requires
        0 < t <= n,
        0 <= base,
        base + 6 * (n + 1) <= m0.len(),
        m.len() == m0.len(),
        moved_to_front(m, m0, base, t, t),
        forall|a: int| 0 <= a < m0.len() && !(base <= a < base + 6 * (t + 1)) ==> #[trigger] m[a] == m0[a],
    ensures
        moved_to_front(m, m0, base, t, n),
        freq_sum(m, base, n + 1) == freq_sum(m0, base, n + 1),
        forall|a: int| 0 <= a < m0.len() && !(base <= a < base + 6 * (n + 1)) ==> #[trigger] m[a] == m0[a],
{
    assert forall|j: int| t < j <= n implies #[trigger] state_at(m, base + 6 * j) == state_at(m0, base + 6 * j) by {
        let a = base + 6 * j;
        assert forall|x: int| a <= x < a + 6 implies #[trigger] m[x] == m0[x - a + a] by {
        }
        lemma_same_state(m, a, m0, a);
    }
    assert forall|j: int| 0 < j <= t implies #[trigger] state_freq(m, base, j) == state_freq(m0, base, j - 1) by {
        assert(state_at(m, base + 6 * j) == state_at(m0, base + 6 * (j - 1)));
    }
    assert forall|j: int| 0 <= j <= n && (j < 0 || j > t) implies #[trigger] state_freq(m, base, j) == state_freq(m0, base, j) by {
        assert(state_at(m, base + 6 * j) == state_at(m0, base + 6 * j));
    }
    assert(state_freq(m, base, 0) == state_freq(m0, base, t)) by {
        assert(state_at(m, base) == state_at(m0, base + 6 * t));
    }
    lemma_rotation_keeps_sum(m, m0, base, 0, t, n + 1);
}

/// Where no state but the found one `t` has a frequency that halves to zero, none of
/// the states after the front does once the found one is moved there.
pub proof fn lemma_front_positive(m: Seq<u8>, m0: Seq<u8>, base: int, t: int, n: int, ad: int)
    requires
        0 <= t <= n,
        moved_to_front(m, m0, base, t, n),
        forall|j: int| 0 <= j <= n && j != t ==> (#[trigger] state_freq(m0, base, j) + ad) / 2 >= 1,
    ensures
        forall|j: int| 1 <= j <= n ==> (#[trigger] state_freq(m, base, j) + ad) / 2 >= 1,
{
    assert forall|j: int| 1 <= j <= n implies (#[trigger] state_freq(m, base, j) + ad) / 2 >= 1 by {
        if j <= t {
            assert(state_at(m, base + 6 * j) == state_at(m0, base + 6 * (j - 1)));
            assert((state_freq(m0, base, j - 1) + ad) / 2 >= 1);
        } else {
            assert(state_at(m, base + 6 * j) == state_at(m0, base + 6 * j));
            assert((state_freq(m0, base, j) + ad) / 2 >= 1);
        }
    }
}

/// A sorted block of states, the first `k` with a frequency and the rest without,
/// keeps in its first `k` states just those of a multiset `h` of the same states
/// that have a frequency.
proof fn lemma_kept_states(s: Seq<(u8, u8, int)>, k: int, h: Multiset<(u8, u8, int)>)
    requires
        0 <= k <= s.len(),
        s.to_multiset() == h,
        forall|j: int| 0 <= j < k ==> (#[trigger] s[j]).1 > 0,
        forall|j: int| k <= j < s.len() ==> (#[trigger] s[j]).1 == 0,
    ensures
        forall|x: (u8, u8, int)| #[trigger] s.take(k).to_multiset().count(x) == (if x.1 > 0 { h.count(x) } else { 0 }),
        s.take(k).to_multiset() == nonzero_part(h),
        nonzero_part(h).len() == k,
{
    broadcast use vstd::multiset::group_multiset_axioms;

    let a = s.take(k);
    let b = s.skip(k);
    assert(s =~= a + b);
    vstd::seq_lib::lemma_multiset_commutative(a, b);
    assert forall|x: (u8, u8, int)| #[trigger] a.to_multiset().count(x) == (if x.1 > 0 { h.count(x) } else { 0 }) by {
        vstd::seq_lib::to_multiset_contains(a, x);
        vstd::seq_lib::to_multiset_contains(b, x);
        if x.1 > 0 {
            if b.contains(x) {
                let j = choose|j: int| 0 <= j < b.len() && b[j] == x;
                assert(s[k + j] == x);
            }
        } else {
            if a.contains(x) {
                let j = choose|j: int| 0 <= j < a.len() && a[j] == x;
                assert(s[j] == x);
            }
        }
    }
    assert(a.to_multiset() =~= nonzero_part(h));
    vstd::seq_lib::to_multiset_len(a);
}

/// Where a block of states that holds the states of `h` keeps only its first state
/// with a frequency, that state is the found one, whose frequency is at least two.
proof fn lemma_first_is_found(s: Seq<(u8, u8, int)>, h: Seq<(u8, u8, int)>, t: int)
    requires
        0 <= t < h.len(),
        h[t].1 >= 2,
        s.len() >= 1,
        s.to_multiset() == h.to_multiset(),
        forall|j: int| 1 <= j < s.len() ==> (#[trigger] s[j]).1 == 0,
    ensures
        s[0] == h[t],
{
    vstd::seq_lib::to_multiset_contains(h, h[t]);
    vstd::seq_lib::to_multiset_contains(s, h[t]);
    assert(h.contains(h[t]));
    let j = choose|j: int| 0 <= j < s.len() && s[j] == h[t];
    assert(s[j].1 >= 2);
}

/// The frequencies of states without a frequency add nothing to a sum.
proof fn lemma_freq_sum_zero_tail(m: Seq<u8>, base: int, k: int, n: int)
    requires
        0 <= k <= n,
        forall|j: int| k <= j < n ==> #[trigger] state_freq(m, base, j) == 0,
    ensures
        freq_sum(m, base, n) == freq_sum(m, base, k),
    decreases n - k,
{
    if n > k {
        lemma_freq_sum_zero_tail(m, base, k, n - 1);
        assert(state_freq(m, base, n - 1) == 0);
    }
}

/// What `rescale` makes of the current context of `a` where it keeps all its states
/// (`rescale_keeps_all`), in `b`: the context keeps its state count, and its states
/// are the old ones, each with its frequency halved (`halved_state`), sorted by
/// frequency, all above zero, the first of them the found state; its sum is recounted
/// (`rescaled_summ`) and it is marked as rescaled.
///
/// Opaque, so that callers that do not need it do not reason about it.
#[verifier::opaque]
pub open spec fn rescaled_whole<RC>(a: Ppmd8<RC>, b: Ppmd8<RC>) -> bool {
    let m0 = a.mem.bytes();
    let m = b.mem.bytes();
    let mc = a.min_context;
    let stats = a.mem.spec_rd32(mc.wrapping_add(4));
    let n = m0[mc as int] as int;
    &&& m[mc as int] == n
    &&& b.found_state == stats
    &&& sorted_by_freq(m, stats as int, n + 1)
    &&& all_at_least(m, stats as int, n + 1, 1)
    &&& le16(m, mc + 2) == rescaled_summ(freq_sum(m, stats as int, n + 1), le16(m0, mc + 2) - freq_sum(m0, stats as int, n + 1))
    &&& m[mc + 1] as u32 == (m0[mc + 1] as u32 | 4)
    &&& states_of(m, stats as int, n + 1).to_multiset() == Seq::new(
        (n + 1) as nat,
        |j: int| halved_state(state_at(m0, stats + 6 * j), j == (a.found_state - stats) / 6, rescale_adder(a)),
    ).to_multiset()
}

/// A state with its frequency halved as `rescale` does, adding `adder` first (one to
/// round up); the found state's frequency is raised by four before.
pub open spec fn halved_state(st: (u8, u8, int), found: bool, adder: int) -> (u8, u8, int) {
    (st.0, (if found { (st.1 + 4 + adder) / 2 } else { (st.1 + adder) / 2 }) as u8, st.2)
}

/// The block of `n + 1` states at `base` in `m` is that of `m0` with state `t` moved
/// to the front and the states before it moved up by one.
pub open spec fn moved_to_front(m: Seq<u8>, m0: Seq<u8>, base: int, t: int, n: int) -> bool {
    &&& state_at(m, base) == state_at(m0, base + 6 * t)
    &&& forall|j: int| 0 < j <= t ==> #[trigger] state_at(m, base + 6 * j) == state_at(m0, base + 6 * (j - 1))
    &&& forall|j: int| t < j <= n ==> #[trigger] state_at(m, base + 6 * j) == state_at(m0, base + 6 * j)
}

/// Halving the states after moving the found one to the front gives the same states
/// as halving them where they were.
pub proof fn lemma_halved_front_multiset(m: Seq<u8>, m0: Seq<u8>, base: int, t: int, n: int, adder: int)
    requires
        0 <= t <= n,
        moved_to_front(m, m0, base, t, n),
    ensures
        Seq::new((n + 1) as nat, |j: int| halved_state(state_at(m, base + 6 * j), j == 0, adder)).to_multiset() == Seq::new(
            (n + 1) as nat,
            |j: int| halved_state(state_at(m0, base + 6 * j), j == t, adder),
        ).to_multiset(),
{
    let h0 = Seq::new((n + 1) as nat, |j: int| halved_state(state_at(m0, base + 6 * j), j == t, adder));
    let hr = Seq::new((n + 1) as nat, |j: int| halved_state(state_at(m, base + 6 * j), j == 0, adder));
    assert(hr =~= h0.remove(t).insert(0, h0[t])) by {
        assert forall|j: int| 0 < j <= t implies #[trigger] hr[j] == h0[j - 1] by {
            assert(state_at(m, base + 6 * j) == state_at(m0, base + 6 * (j - 1)));
        }
        assert forall|j: int| t < j <= n implies #[trigger] hr[j] == h0[j] by {
            assert(state_at(m, base + 6 * j) == state_at(m0, base + 6 * j));
        }
    }
    lemma_move_keeps_multiset(h0, t, 0);
}

/// A copy of a state, read byte by byte: the six bytes at `dst` are those at `src`,
/// and the rest is unchanged.
proof fn lemma_copy_state_bytes(m: Seq<u8>, m2: Seq<u8>, src: int, dst: int)
    requires
        0 <= src,
        0 <= dst,
        src + 6 <= m.len(),
        dst + 6 <= m.len(),
        m2 == m.subrange(0, dst) + m.subrange(src, src + 6) + m.subrange(dst + 6, m.len() as int),
    ensures
        m2.len() == m.len(),
        forall|a: int| 0 <= a < m.len() ==> #[trigger] m2[a] == (if dst <= a < dst + 6 {
            m[src + (a - dst)]
        } else {
            m[a]
        }),
{
    assert forall|a: int| 0 <= a < m.len() implies #[trigger] m2[a] == (if dst <= a < dst + 6 {
        m[src + (a - dst)]
    } else {
        m[a]
    }) by {
        if a < dst {
            assert(m2[a] == m.subrange(0, dst)[a]);
        } else if a < dst + 6 {
            assert(m2[a] == m.subrange(src, src + 6)[a - dst]);
        } else {
            assert(m2[a] == m.subrange(dst + 6, m.len() as int)[a - dst - 6]);
        }
    }
}

/// The row of the escape estimators for a context with `num_stats + 1` states.
proof fn lemma_see_row(t: Seq<u8>, i: int)
    requires
        ns2index_wf(t),
        3 <= i <= 256,
    ensures
        3 <= t[i] <= 26,
{
    lemma_ns_start_values();
    let v = t[i] as int;
    if v > 26 {
        lemma_ns_start_monotone(27, v);
    }
    if v < 3 {
        lemma_ns_start_monotone(v + 1, 3);
    }
}

/// The row of the binary context probabilities for a state of frequency `i + 1`.
proof fn lemma_bin_row(t: Seq<u8>, i: int)
    requires
        ns2index_wf(t),
        0 <= i < 215,
    ensures
        t[i] <= 24,
{
    lemma_ns_start_values();
    let v = t[i] as int;
    if v > 24 {
        lemma_ns_start_monotone(25, v);
    }
}

impl Arena {
    /// Moves state `i` of the block of states at `stats` ahead of the states before it
    /// that have a lower frequency, so that a block sorted by frequency but for its
    /// last state becomes sorted.
    pub fn insert_state(&mut self, stats: u32, i: u32)
        requires
            old(self).bytes().len() <= 0xFFFF_FFFF,
            1 <= i <= 255,
        ensures
            final(self).bytes().len() == old(self).bytes().len(),
            ({
                let m0 = old(self).bytes();
                let m = final(self).bytes();
                stats + 6 * (i + 1) <= m0.len() && sorted_by_freq(m0, stats as int, i as int) ==> {
                    &&& sorted_by_freq(m, stats as int, i + 1)
                    &&& freq_sum(m, stats as int, i + 1) == freq_sum(m0, stats as int, i + 1)
                    &&& states_of(m, stats as int, i + 1).to_multiset() == states_of(m0, stats as int, i + 1).to_multiset()
                    &&& state_freq(m, stats as int, 0) >= state_freq(m0, stats as int, 0)
                    &&& forall|a: int|
                        0 <= a < m0.len() && !(stats <= a < stats + 6 * (i + 1)) ==> #[trigger] m[a] == m0[a]
                    &&& all_at_least(m0, stats as int, i + 1, 1) ==> all_at_least(m, stats as int, i + 1, 1)
                }
            }),
    {
        let ghost m0 = self.bytes();
        let ghost ok = stats + 6 * (i + 1) <= m0.len() && sorted_by_freq(m0, stats as int, i as int);
        let s = stats.wrapping_add(i * STATE_SIZE);
        let freq = (self.rd8(s.wrapping_add(1)) as u32);
        let ghost base = stats as int;
        proof {
            if ok {
                assert(s as int == base + 6 * i);
                assert(freq == state_freq(m0, base, i as int));
                assert(s.wrapping_sub(STATE_SIZE) as int == base + 6 * (i - 1));
                assert(s.wrapping_sub(STATE_SIZE).wrapping_add(1) as int == base + 6 * (i - 1) + 1);
            }
        }
        if freq > (self.rd8((s.wrapping_sub(STATE_SIZE)).wrapping_add(1)) as u32) {
            let tsym = (self.rd8(s) as u32);
            let tsucc = self.rd32(s.wrapping_add(2));
            let mut s1 = s;
            let mut k: u32 = 0;
            let ghost mut p: int = i as int;
            while k < 256
                invariant_except_break
                    ok ==> 1 <= p && k + p == i && freq > state_freq(m0, base, p - 1),
                invariant
                    self.bytes().len() == old(self).bytes().len(),
                    old(self).bytes().len() <= 0xFFFF_FFFF,
                    m0 == old(self).bytes(),
                    1 <= i <= 255,
                    base == stats as int,
                    ok == (stats + 6 * (i + 1) <= m0.len() && sorted_by_freq(m0, stats as int, i as int)),
                    ok ==> {
                        let m = self.bytes();
                        &&& 0 <= p <= i
                        &&& s1 as int == base + 6 * p
                        &&& forall|a: int|
                            0 <= a < m0.len() && !(base + 6 * (p + 1) <= a < base + 6 * (i + 1)) ==> #[trigger] m[a]
                                == m0[a]
                        &&& forall|j: int| p < j <= i ==> #[trigger] state_freq(m, base, j) == state_freq(m0, base, j - 1)
                        &&& forall|j: int| p < j <= i ==> #[trigger] state_at(m, base + 6 * j) == state_at(m0, base + 6 * (j - 1))
                        &&& sorted_by_freq(m0, base, i as int)
                        &&& freq == state_freq(m0, base, i as int)
                    },
                ensures
                    self.bytes().len() == old(self).bytes().len(),
                    old(self).bytes().len() <= 0xFFFF_FFFF,
                    ok ==> {
                        let m = self.bytes();
                        &&& 0 <= p < i
                        &&& s1 as int == base + 6 * p
                        &&& forall|a: int|
                            0 <= a < m0.len() && !(base + 6 * (p + 1) <= a < base + 6 * (i + 1)) ==> #[trigger] m[a]
                                == m0[a]
                        &&& forall|j: int| p < j <= i ==> #[trigger] state_freq(m, base, j) == state_freq(m0, base, j - 1)
                        &&& forall|j: int| p < j <= i ==> #[trigger] state_at(m, base + 6 * j) == state_at(m0, base + 6 * (j - 1))
                        &&& (p == 0 || freq <= state_freq(m0, base, p - 1))
                        &&& freq > state_freq(m0, base, p)
                    },
                decreases 256 - k,
            {
                let prev = s1.wrapping_sub(STATE_SIZE);
                let ghost mb = self.bytes();
                self.copy(prev, s1, STATE_SIZE);
                proof {
                    if ok {
                        assert(p >= 1);
                        assert(s1 as int == base + 6 * p);
                        assert(prev as int == base + 6 * (p - 1));
                        lemma_copy_state_bytes(mb, self.bytes(), base + 6 * (p - 1), base + 6 * p);
                        let m = self.bytes();
                        assert forall|j: int| p - 1 < j <= i implies #[trigger] state_freq(m, base, j) == state_freq(m0, base, j - 1) by {
                            if j == p {
                                assert(m[base + 6 * p + 1] == mb[base + 6 * (p - 1) + 1]);
                                assert(mb[base + 6 * (p - 1) + 1] == m0[base + 6 * (p - 1) + 1]);
                            } else {
                                assert(m[base + 6 * j + 1] == mb[base + 6 * j + 1]);
                                assert(state_freq(mb, base, j) == state_freq(m0, base, j - 1));
                            }
                        }
                        assert forall|j: int| p - 1 < j <= i implies #[trigger] state_at(m, base + 6 * j) == state_at(
                            m0,
                            base + 6 * (j - 1),
                        ) by {
                            let a = base + 6 * j;
                            if j == p {
                                assert forall|x: int| a <= x < a + 6 implies #[trigger] m[x] == m0[x - a + (a - 6)] by {
                                    assert(m[x] == mb[base + 6 * (p - 1) + (x - a)]);
                                    assert(mb[x - 6] == m0[x - 6]);
                                }
                                lemma_same_state(m, a, m0, a - 6);
                            } else {
                                assert forall|x: int| a <= x < a + 6 implies #[trigger] m[x] == mb[x - a + a] by {
                                    assert(m[x] == mb[x]);
                                }
                                lemma_same_state(m, a, mb, a);
                            }
                        }
                        p = p - 1;
                        if p >= 1 {
                            assert(prev.wrapping_sub(STATE_SIZE) as int == base + 6 * (p - 1));
                            assert(prev.wrapping_sub(STATE_SIZE).wrapping_add(1) as int == base + 6 * (p - 1) + 1);
                            assert(m[base + 6 * (p - 1) + 1] == m0[base + 6 * (p - 1) + 1]);
                        }
                    }
                }
                s1 = prev;
                if !(s1 != stats && freq > (self.rd8((s1.wrapping_sub(STATE_SIZE)).wrapping_add(1)) as u32)) {
                    break;
                }
                k = k + 1;
            }
            let ghost mb = self.bytes();
            self.wr8(s1, tsym as u8);
            let ghost m1 = self.bytes();
            self.wr8(s1.wrapping_add(1), freq as u8);
            let ghost m2 = self.bytes();
            self.wr32(s1.wrapping_add(2), tsucc);
            proof {
                if ok {
                    let m = self.bytes();
                    let pp = p;
                    assert(s1.wrapping_add(1) as int == base + 6 * pp + 1);
                    assert(s1.wrapping_add(2) as int == base + 6 * pp + 2);
                    assert(state_freq(m, base, pp) == freq);
                    assert forall|a: int| 0 <= a < m0.len() && !(base <= a < base + 6 * (i + 1)) implies #[trigger] m[a]
                        == m0[a] by {
                        assert(m[a] == mb[a]);
                    }
                    assert forall|j: int| 0 <= j <= i && j != pp implies #[trigger] state_freq(m, base, j) == (if j < pp {
                        state_freq(m0, base, j)
                    } else {
                        state_freq(m0, base, j - 1)
                    }) by {
                        let a = base + 6 * j + 1;
                        assert(a != base + 6 * pp && a != base + 6 * pp + 1);
                        assert(!(base + 6 * pp + 2 <= a < base + 6 * pp + 6));
                        assert(m[a] == m2[a]);
                        assert(m2[a] == m1[a]);
                        assert(m1[a] == mb[a]);
                        if j < pp {
                            assert(mb[a] == m0[a]);
                        } else {
                            assert(state_freq(mb, base, j) == state_freq(m0, base, j - 1));
                        }
                    }
                    assert forall|a: int, b: int| 0 <= a < b < i + 1 implies #[trigger] state_freq(m, base, a)
                        >= #[trigger] state_freq(m, base, b) by {
                        if a != pp && b != pp {
                            if a < pp && b > pp {
                                assert(state_freq(m0, base, a) >= state_freq(m0, base, b - 1));
                            }
                        } else if a == pp {
                            assert(state_freq(m0, base, pp) >= state_freq(m0, base, b - 1));
                        } else {
                            assert(state_freq(m0, base, a) >= state_freq(m0, base, pp - 1));
                        }
                    }
                    lemma_rotation_keeps_sum(m, m0, base, pp, i as int, i + 1);
                    let ii = i as int;
                    assert(s1.wrapping_add(2) as int == base + 6 * pp + 2);
                    assert(s as int == base + 6 * ii);
                    assert(s.wrapping_add(2) as int == base + 6 * ii + 2);
                    assert(state_at(m, base + 6 * pp) == state_at(m0, base + 6 * ii)) by {
                        assert(m[base + 6 * pp] == m1[base + 6 * pp]);
                        assert(m[base + 6 * pp + 1] == freq);
                    }
                    assert forall|j: int| 0 <= j <= ii && j != pp implies #[trigger] state_at(m, base + 6 * j) == (if j < pp {
                        state_at(m0, base + 6 * j)
                    } else {
                        state_at(m0, base + 6 * (j - 1))
                    }) by {
                        let a = base + 6 * j;
                        assert forall|x: int| a <= x < a + 6 implies #[trigger] m[x] == mb[x - a + a] by {
                            assert(m[x] == m2[x]);
                            assert(m2[x] == m1[x]);
                            assert(m1[x] == mb[x]);
                        }
                        lemma_same_state(m, a, mb, a);
                        if j < pp {
                            assert forall|x: int| a <= x < a + 6 implies #[trigger] mb[x] == m0[x - a + a] by {
                            }
                            lemma_same_state(mb, a, m0, a);
                        }
                    }
                    let st0 = states_of(m0, base, ii + 1);
                    assert(states_of(m, base, ii + 1) =~= st0.remove(ii).insert(pp, st0[ii]));
                    lemma_move_keeps_multiset(st0, ii, pp);
                    if pp > 0 {
                        assert(state_freq(m, base, 0) == state_freq(m0, base, 0));
                    }
                    if all_at_least(m0, base, i + 1, 1) {
                        assert forall|j: int| 0 <= j < i + 1 implies #[trigger] state_freq(m, base, j) >= 1 by {
                            if j < pp {
                                assert(state_freq(m0, base, j) >= 1);
                            } else if j > pp {
                                assert(state_freq(m0, base, j - 1) >= 1);
                            } else {
                                assert(state_freq(m0, base, i as int) >= 1);
                            }
                        }
                    }
                }
            }
        } else {
            proof {
                if ok {
                    let m = self.bytes();
                    assert(m == m0);
                    assert(states_of(m, base, i + 1) == states_of(m0, base, i + 1));
                    assert forall|a: int, b: int| 0 <= a < b < i + 1 implies #[trigger] state_freq(m, base, a)
                        >= #[trigger] state_freq(m, base, b) by {
                        if b == i {
                            assert(state_freq(m0, base, a) >= state_freq(m0, base, i - 1) || a == i - 1);
                        }
                    }
                }
            }
        }
    }

    /// Moves the state at `s` to `stats`, the front of its block of states, the states
    /// before it moving up by one.
    pub fn move_to_front(&mut self, stats: u32, s: u32)
        requires
            old(self).bytes().len() <= 0xFFFF_FFFF,
        ensures
            final(self).bytes().len() == old(self).bytes().len(),
            ({
                let m0 = old(self).bytes();
                let m = final(self).bytes();
                let t = (s - stats) / 6;
                stats < s && (s - stats) % 6 == 0 && s + 6 <= m0.len() && t <= 255 ==> {
                    &&& moved_to_front(m, m0, stats as int, t, t)
                    &&& forall|a: int| 0 <= a < m0.len() && !(stats <= a < s + 6) ==> #[trigger] m[a] == m0[a]
                }
            }),
    {
        let ghost m0 = self.bytes();
        let ghost base = stats as int;
        let ghost t = (s - stats) / 6;
        let ghost ok = stats < s && (s - stats) % 6 == 0 && s + 6 <= m0.len() && t <= 255;
        let tsym = (self.rd8(s) as u32);
        let tfreq = (self.rd8(s.wrapping_add(1)) as u32);
        let tsucc = self.rd32(s.wrapping_add(2));
        proof {
            if ok {
                assert(s as int == base + 6 * t);
                assert(s.wrapping_add(1) as int == base + 6 * t + 1);
                assert(s.wrapping_add(2) as int == base + 6 * t + 2);
                assert(state_at(m0, base + 6 * t) == (tsym as u8, tfreq as u8, tsucc as int));
            }
        }
        let mut cur = s;
        let mut k: u32 = 0;
        while k < 256
            invariant_except_break
                ok ==> cur as int == base + 6 * (t - k) && k < t,
                ok ==> {
                    let m = self.bytes();
                    &&& forall|j: int| t - k < j <= t ==> #[trigger] state_at(m, base + 6 * j) == state_at(m0, base + 6 * (j - 1))
                    &&& forall|j: int| 0 <= j <= t - k ==> #[trigger] state_at(m, base + 6 * j) == state_at(m0, base + 6 * j)
                },
            invariant
                self.bytes().len() == old(self).bytes().len(),
                old(self).bytes().len() <= 0xFFFF_FFFF,
                m0 == old(self).bytes(),
                base == stats as int,
                ok == (stats < s && (s - stats) % 6 == 0 && s + 6 <= m0.len() && t <= 255),
                t == (s - stats) / 6,
                ok ==> {
                    let m = self.bytes();
                    forall|a: int| 0 <= a < m0.len() && !(base <= a < base + 6 * (t + 1)) ==> #[trigger] m[a] == m0[a]
                },
            ensures
                self.bytes().len() == old(self).bytes().len(),
                old(self).bytes().len() <= 0xFFFF_FFFF,
                ok ==> cur == stats && {
                    let m = self.bytes();
                    &&& forall|a: int| 0 <= a < m0.len() && !(base <= a < base + 6 * (t + 1)) ==> #[trigger] m[a] == m0[a]
                    &&& forall|j: int| 0 < j <= t ==> #[trigger] state_at(m, base + 6 * j) == state_at(m0, base + 6 * (j - 1))
                },
            decreases 256 - k,
        {
            let prev = cur.wrapping_sub(STATE_SIZE);
            let ghost mb = self.bytes();
            self.copy(prev, cur, STATE_SIZE);
            proof {
                if ok {
                    let kk = k as int;
                    assert(prev as int == base + 6 * (t - kk - 1));
                    lemma_copy_state_bytes(mb, self.bytes(), base + 6 * (t - kk - 1), base + 6 * (t - kk));
                    let m = self.bytes();
                    let dst = base + 6 * (t - kk);
                    assert forall|j: int| t - (kk + 1) < j <= t implies #[trigger] state_at(m, base + 6 * j) == state_at(
                        m0,
                        base + 6 * (j - 1),
                    ) by {
                        let a = base + 6 * j;
                        if j == t - kk {
                            assert forall|x: int| a <= x < a + 6 implies #[trigger] m[x] == mb[x - a + (a - 6)] by {
                                assert(m[x] == mb[dst - 6 + (x - dst)]);
                            }
                            lemma_same_state(m, a, mb, a - 6);
                            assert(state_at(mb, base + 6 * (t - kk - 1)) == state_at(m0, base + 6 * (t - kk - 1)));
                        } else {
                            assert forall|x: int| a <= x < a + 6 implies #[trigger] m[x] == mb[x - a + a] by {
                                assert(m[x] == mb[x]);
                            }
                            lemma_same_state(m, a, mb, a);
                        }
                    }
                    assert forall|j: int| 0 <= j <= t - (kk + 1) implies #[trigger] state_at(m, base + 6 * j) == state_at(
                        m0,
                        base + 6 * j,
                    ) by {
                        let a = base + 6 * j;
                        assert forall|x: int| a <= x < a + 6 implies #[trigger] m[x] == mb[x - a + a] by {
                            assert(m[x] == mb[x]);
                        }
                        lemma_same_state(m, a, mb, a);
                    }
                    assert forall|a: int| 0 <= a < m0.len() && !(base <= a < base + 6 * (t + 1)) implies #[trigger] m[a]
                        == m0[a] by {
                        assert(m[a] == mb[a]);
                    }
                }
            }
            cur = prev;
            if cur == stats {
                break;
            }
            k = k + 1;
        }
        let ghost mb = self.bytes();
        self.wr8(cur, tsym as u8);
        let ghost m1 = self.bytes();
        self.wr8(cur.wrapping_add(1), tfreq as u8);
        let ghost m2 = self.bytes();
        self.wr32(cur.wrapping_add(2), tsucc);
        proof {
            if ok {
                let m = self.bytes();
                assert(cur.wrapping_add(1) as int == base + 1);
                assert(cur.wrapping_add(2) as int == base + 2);
                assert forall|a: int| 0 <= a < m0.len() && !(stats <= a < s + 6) implies #[trigger] m[a] == m0[a] by {
                    assert(m[a] == m2[a]);
                    assert(m2[a] == m1[a]);
                    assert(m1[a] == mb[a]);
                }
                assert(state_at(m, base) == state_at(m0, base + 6 * t)) by {
                    assert(m[base] == m1[base]);
                }
                assert forall|j: int| 0 < j <= t implies #[trigger] state_at(m, base + 6 * j) == state_at(m0, base + 6 * (j - 1)) by {
                    let a = base + 6 * j;
                    assert forall|x: int| a <= x < a + 6 implies #[trigger] m[x] == mb[x - a + a] by {
                        assert(m[x] == m2[x]);
                        assert(m2[x] == m1[x]);
                        assert(m1[x] == mb[x]);
                    }
                    lemma_same_state(m, a, mb, a);
                }
            }
        }
    }

    /// Halves the frequencies of the `n + 1` states at `stats`, adding `adder` first
    /// (the first state's frequency raised by four before), and sorts the states by
    /// frequency as it goes. Returns the sum of the new frequencies, and `summ` less
    /// the old ones, taken modulo 2^32.
    pub fn halve_states(&mut self, stats: u32, n: u32, adder: u32, summ: u32) -> (r: (u32, u32))
        requires
            old(self).bytes().len() <= 0xFFFF_FFFF,
            1 <= n <= 255,
            adder <= 1,
        ensures
            final(self).bytes().len() == old(self).bytes().len(),
            r.0 <= 256 * (n + 1),
            ({
                let m0 = old(self).bytes();
                let m = final(self).bytes();
                let base = stats as int;
                let k = n + 1;
                base + 6 * k <= m0.len() ==> {
                    &&& sorted_by_freq(m, base, k)
                    &&& states_of(m, base, k).to_multiset() == Seq::new(
                        k as nat,
                        |j: int| halved_state(state_at(m0, base + 6 * j), j == 0, adder as int),
                    ).to_multiset()
                    &&& r.0 == freq_sum(m, base, k)
                    &&& r.1 == (summ - freq_sum(m0, base, k)) % 0x1_0000_0000
                    &&& state_freq(m, base, 0) >= 2
                    &&& forall|a: int| 0 <= a < m0.len() && !(base <= a < base + 6 * k) ==> #[trigger] m[a] == m0[a]
                    &&& (forall|j: int| 1 <= j <= n ==> (#[trigger] state_freq(m0, base, j) + adder) / 2 >= 1) ==> all_at_least(
                        m,
                        base,
                        k,
                        1,
                    )
                }
            }),
    {
        let ghost m0 = self.bytes();
        let ghost base = stats as int;
        let ghost ok = base + 6 * (n + 1) <= m0.len();
        let ghost pos = forall|j: int| 1 <= j <= n ==> (#[trigger] state_freq(m0, base, j) + adder) / 2 >= 1;
        let ghost ad = adder as int;
        let ghost hr = Seq::new((n + 1) as nat, |j: int| halved_state(state_at(m0, base + 6 * j), j == 0, ad));
        let f0 = (self.rd8(stats.wrapping_add(1)) as u32);
        let mut esc_freq = summ.wrapping_sub(f0);
        let mut sum_freq = (f0 + 4 + adder) / 2;
        self.wr8(stats.wrapping_add(1), sum_freq as u8);
        proof {
            if ok {
                let m = self.bytes();
                assert(stats.wrapping_add(1) as int == base + 1);
                assert(stats.wrapping_add(2) as int == base + 2);
                assert(freq_sum(m0, base, 0) == 0);
                assert(freq_sum(m0, base, 1) == f0);
                assert(esc_freq as int == (summ - freq_sum(m0, base, 1)) % 0x1_0000_0000);
                assert(freq_sum(m, base, 0) == 0);
                assert(freq_sum(m, base, 1) == sum_freq);
                assert forall|j: int| 1 <= j <= n implies #[trigger] state_freq(m, base, j) == state_freq(m0, base, j) by {
                    assert(m[base + 6 * j + 1] == m0[base + 6 * j + 1]);
                }
                assert forall|j: int| 1 <= j <= n implies #[trigger] state_at(m, base + 6 * j) == state_at(m0, base + 6 * j) by {
                    let a = base + 6 * j;
                    assert forall|x: int| a <= x < a + 6 implies #[trigger] m[x] == m0[x - a + a] by {
                        assert(x != base + 1);
                    }
                    lemma_same_state(m, a, m0, a);
                }
                assert(state_at(m, base) == hr[0]) by {
                    assert(m[base] == m0[base]);
                    assert(m[base + 2] == m0[base + 2] && m[base + 3] == m0[base + 3] && m[base + 4] == m0[base + 4] && m[base
                        + 5] == m0[base + 5]);
                }
                assert(states_of(m, base, 1) =~= hr.take(1));
                assert(all_at_least(m, base, 1, 1));
                assert(state_freq(m, base, 0) >= 2);
                assert forall|a: int| 0 <= a < m0.len() && !(base <= a < base + 6 * (n + 1)) implies #[trigger] m[a] == m0[a] by {
                    assert(a != base + 1);
                }
            }
        }
        let mut i: u32 = 1;
        while i <= n
            invariant
                self.bytes().len() == old(self).bytes().len(),
                old(self).bytes().len() <= 0xFFFF_FFFF,
                m0 == old(self).bytes(),
                base == stats as int,
                ok == (base + 6 * (n + 1) <= m0.len()),
                pos == (forall|j: int| 1 <= j <= n ==> (#[trigger] state_freq(m0, base, j) + adder) / 2 >= 1),
                1 <= i <= n + 1,
                1 <= n <= 255,
                adder <= 1,
                ad == adder as int,
                sum_freq <= 256 * i,
                hr == Seq::new((n + 1) as nat, |j: int| halved_state(state_at(m0, base + 6 * j), j == 0, ad)),
                ok ==> {
                    let m = self.bytes();
                    &&& sorted_by_freq(m, base, i as int)
                    &&& state_freq(m, base, 0) >= 2
                    &&& pos ==> all_at_least(m, base, i as int, 1)
                    &&& forall|a: int| 0 <= a < m0.len() && !(base <= a < base + 6 * (n + 1)) ==> #[trigger] m[a] == m0[a]
                    &&& sum_freq == freq_sum(m, base, i as int)
                    &&& esc_freq as int == (summ - freq_sum(m0, base, i as int)) % 0x1_0000_0000
                    &&& forall|j: int| i <= j <= n ==> #[trigger] state_freq(m, base, j) == state_freq(m0, base, j)
                    &&& forall|j: int| i <= j <= n ==> #[trigger] state_at(m, base + 6 * j) == state_at(m0, base + 6 * j)
                    &&& states_of(m, base, i as int).to_multiset() == hr.take(i as int).to_multiset()
                },
            decreases n + 1 - i,
        {
            let cur = stats.wrapping_add(i * STATE_SIZE);
            let freq0 = (self.rd8(cur.wrapping_add(1)) as u32);
            esc_freq = esc_freq.wrapping_sub(freq0);
            let freq = (freq0 + adder) / 2;
            sum_freq = sum_freq + freq;
            let ghost mb = self.bytes();
            self.wr8(cur.wrapping_add(1), freq as u8);
            let ghost mw = self.bytes();
            proof {
                if ok {
                    let ii = i as int;
                    assert(cur as int == base + 6 * ii);
                    assert(cur.wrapping_add(1) as int == base + 6 * ii + 1);
                    assert(cur.wrapping_add(2) as int == base + 6 * ii + 2);
                    assert(freq0 == state_freq(mb, base, ii));
                    assert(state_freq(mb, base, ii) == state_freq(m0, base, ii));
                    assert forall|a: int, b: int| 0 <= a < b < ii implies #[trigger] state_freq(mw, base, a)
                        >= #[trigger] state_freq(mw, base, b) by {
                        assert(state_freq(mb, base, a) >= state_freq(mb, base, b));
                    }
                    if pos {
                        assert(freq >= 1);
                        assert forall|j: int| 0 <= j < ii + 1 implies #[trigger] state_freq(mw, base, j) >= 1 by {
                            if j != ii {
                                assert(mw[base + 6 * j + 1] == mb[base + 6 * j + 1]);
                                assert(state_freq(mb, base, j) >= 1);
                            }
                        }
                    }
                    assert(freq_sum(m0, base, ii + 1) == freq_sum(m0, base, ii) + freq0);
                    lemma_sub_mod_noop(summ - freq_sum(m0, base, ii), freq0 as int, 0x1_0000_0000);
                    assert(esc_freq as int == (summ - freq_sum(m0, base, ii + 1)) % 0x1_0000_0000);
                    assert forall|j: int| 0 <= j < ii implies #[trigger] mb[base + 6 * j + 1] == mw[base + 6 * j + 1] by {
                        assert(base + 6 * j + 1 != base + 6 * ii + 1);
                    }
                    lemma_freq_sum_frame(mb, mw, base, ii);
                    assert(freq_sum(mw, base, ii + 1) == sum_freq);
                    assert(state_at(mw, base + 6 * ii) == hr[ii]) by {
                        assert(mw[base + 6 * ii] == mb[base + 6 * ii]);
                        assert(mw[base + 6 * ii + 2] == mb[base + 6 * ii + 2] && mw[base + 6 * ii + 3] == mb[base + 6 * ii + 3]);
                        assert(mw[base + 6 * ii + 4] == mb[base + 6 * ii + 4] && mw[base + 6 * ii + 5] == mb[base + 6 * ii + 5]);
                        assert(state_at(mb, base + 6 * ii) == state_at(m0, base + 6 * ii));
                    }
                    assert forall|j: int| 0 <= j < ii implies #[trigger] state_at(mw, base + 6 * j) == state_at(mb, base + 6 * j) by {
                        let a = base + 6 * j;
                        assert forall|x: int| a <= x < a + 6 implies #[trigger] mw[x] == mb[x - a + a] by {
                            assert(x != base + 6 * ii + 1);
                        }
                        lemma_same_state(mw, a, mb, a);
                    }
                    assert(states_of(mw, base, ii) =~= states_of(mb, base, ii));
                    assert(states_of(mw, base, ii + 1) =~= states_of(mw, base, ii).push(hr[ii]));
                    assert(hr.take(ii + 1) =~= hr.take(ii).push(hr[ii]));
                    vstd::seq_lib::to_multiset_build(states_of(mw, base, ii), hr[ii]);
                    vstd::seq_lib::to_multiset_build(hr.take(ii), hr[ii]);
                }
            }
            self.insert_state(stats, i);
            proof {
                if ok {
                    let m = self.bytes();
                    let ii = i as int;
                    assert forall|j: int| ii + 1 <= j <= n implies #[trigger] state_at(m, base + 6 * j) == state_at(m0, base + 6 * j) by {
                        let a = base + 6 * j;
                        assert forall|x: int| a <= x < a + 6 implies #[trigger] m[x] == mb[x - a + a] by {
                            assert(!(stats <= x < stats + 6 * (ii + 1)));
                            assert(m[x] == mw[x]);
                            assert(mw[x] == mb[x]);
                        }
                        lemma_same_state(m, a, mb, a);
                    }
                    assert forall|j: int| ii + 1 <= j <= n implies #[trigger] state_freq(m, base, j) == state_freq(m0, base, j) by {
                        let a = base + 6 * j + 1;
                        assert(!(stats <= a < stats + 6 * (ii + 1)));
                        assert(m[a] == mw[a]);
                        assert(mw[a] == mb[a]);
                        assert(state_freq(mb, base, j) == state_freq(m0, base, j));
                    }
                    if pos {
                        assert(all_at_least(mw, base, ii + 1, 1));
                        assert(all_at_least(m, base, ii + 1, 1));
                    }
                    assert(state_freq(mw, base, 0) == state_freq(mb, base, 0));
                    assert forall|a: int| 0 <= a < m0.len() && !(base <= a < base + 6 * (n + 1)) implies #[trigger] m[a] == m0[a] by {
                        assert(m[a] == mw[a]);
                        assert(mw[a] == mb[a]);
                    }
                }
            }
            i = i + 1;
        }
        proof {
            if ok {
                assert(hr.take(n + 1) =~= hr);
            }
        }
        (sum_freq, esc_freq)
    }
}

impl<RC> Ppmd8<RC> {



    /// The number of states at the end of the `n + 1` states at `stats` whose
    /// frequency is zero, where the last one's is; at most 256.
    fn dropped_states(&self, stats: u32, n: u32) -> (removed: u32)
        requires
            self.wf(),
            1 <= n <= 255,
        ensures
            removed <= 256,
            ({
                let m = self.mem.bytes();
                let base = stats as int;
                base + 6 * (n + 1) <= m.len() && sorted_by_freq(m, base, n + 1) && state_freq(m, base, 0) >= 1 && state_freq(
                    m,
                    base,
                    n as int,
                ) == 0 ==> {
                    &&& 1 <= removed <= n
                    &&& state_freq(m, base, n - removed) >= 1
                    &&& forall|j: int| n - removed < j <= n ==> #[trigger] state_freq(m, base, j) == 0
                }
            }),
    {
        let ghost m = self.mem.bytes();
        let ghost base = stats as int;
        let ghost ok = base + 6 * (n + 1) <= m.len() && sorted_by_freq(m, base, n + 1) && state_freq(m, base, 0) >= 1
            && state_freq(m, base, n as int) == 0;
        let mut s = stats.wrapping_add(n * STATE_SIZE);
        let mut removed: u32 = 0;
        let mut k: u32 = 0;
        while k < 256
            invariant_except_break
                removed == k,
                k <= 256,
                ok ==> s as int == base + 6 * (n - k) && k < n,
                ok ==> forall|j: int| n - k <= j <= n ==> #[trigger] state_freq(m, base, j) == 0,
            invariant
                m == self.mem.bytes(),
                base == stats as int,
                1 <= n <= 255,
                ok == (base + 6 * (n + 1) <= m.len() && sorted_by_freq(m, base, n + 1) && state_freq(m, base, 0) >= 1
                    && state_freq(m, base, n as int) == 0),
            ensures
                removed <= 256,
                ok ==> {
                    &&& 1 <= removed <= n
                    &&& state_freq(m, base, n - removed) >= 1
                    &&& forall|j: int| n - removed < j <= n ==> #[trigger] state_freq(m, base, j) == 0
                },
            decreases 256 - k,
        {
            removed = removed + 1;
            s = s.wrapping_sub(STATE_SIZE);
            proof {
                if ok {
                    assert(s as int == base + 6 * (n - k - 1));
                    assert(s.wrapping_add(1) as int == base + 6 * (n - k - 1) + 1);
                }
            }
            if self.freq(s) != 0 {
                break;
            }
            proof {
                if ok {
                    assert(n - k - 1 != 0);
                }
            }
            k = k + 1;
        }
        removed
    }

    /// Drops the states whose frequency fell to zero from the end of the `n + 1` states
    /// at `stats` of the context `mc`, adding their number to `esc_freq`: where one
    /// state is left, the context becomes binary (`rescale_to_binary`); else its
    /// states move to a smaller block where they take fewer units now. Returns the new
    /// escape frequency, the number of states dropped, and whether the context became
    /// binary.
    fn drop_states(&mut self, mc: u32, stats: u32, n: u32, esc_freq: u32) -> (r: (u32, u32, bool))
        requires
            old(self).wf(),
            1 <= n <= 255,
        ensures
            model_frame(*old(self), *final(self)),
            final(self).min_context == old(self).min_context,
            final(self).max_context == old(self).max_context,
            final(self).order_fall == old(self).order_fall,
            r.2 ==> final(self).found_state == mc.wrapping_add(2),
            !r.2 ==> final(self).found_state == old(self).found_state,
            ({
                let m1 = old(self).mem.bytes();
                let m = final(self).mem.bytes();
                let base = stats as int;
                let sq = states_of(m1, base, n + 1);
                let k = n + 1 - r.1;
                let n0 = ((n + 2) / 2) as u32;
                let n1 = ((k + 1) / 2) as u32;
                drop_ok(*old(self), mc, stats, n) ==> {
                    &&& 1 <= r.1 <= n
                    &&& r.2 == (k == 1)
                    &&& forall|j: int| 0 <= j < k ==> (#[trigger] sq[j]).1 > 0
                    &&& forall|j: int| k <= j <= n ==> (#[trigger] sq[j]).1 == 0
                    &&& r.0 == (esc_freq + r.1) % 0x1_0000_0000
                    &&& k == 1 ==> {
                        &&& m[mc as int] == 0
                        &&& state_at(m, mc + 2) == (sq[0].0, binary_freq(sq[0].1 as int, r.0 as int) as u8, sq[0].2)
                        &&& m[mc + 1] as u32 == ((m1[mc + 1] as u32) & 16) + (if sq[0].0 >= 0x40 { 8u32 } else { 0u32 })
                        &&& final(self).free_list@[old(self).units2index@[n0 - 1] as int] == stats
                    }
                    &&& k >= 2 ==> {
                        let p = if n0 == n1 { base } else { shrink_target(*old(self), stats, n0, n1) as int };
                        &&& le32(m, mc + 4) == p
                        &&& rescale_target_apart(*old(self), k) ==> {
                            &&& m[mc as int] == k - 1
                            &&& forall|x: int| mc < x < mc + 4 ==> #[trigger] m[x] == m1[x]
                            &&& (mc + 12 <= p || p + 6 * k <= mc)
                            &&& p + 6 * k <= m1.len()
                            &&& states_of(m, p, k) == sq.take(k)
                        }
                    }
                }
            }),
    {
        let ghost m1 = self.mem.bytes();
        let ghost base = stats as int;
        let ghost ok = drop_ok(*self, mc, stats, n);
        let ghost sq = states_of(m1, base, n + 1);
        let removed = self.dropped_states(stats, n);
        let esc = esc_freq.wrapping_add(removed);
        let num_stats = self.num_stats(mc);
        let num_stats_new = num_stats.wrapping_sub(removed);
        let ghost k: int = n + 1 - removed;
        proof {
            if ok {
                assert(num_stats == n);
                assert forall|j: int| 0 <= j < k implies (#[trigger] sq[j]).1 > 0 by {
                    assert(sq[j].1 == state_freq(m1, base, j));
                    assert(state_freq(m1, base, j) >= state_freq(m1, base, n - removed));
                }
                assert forall|j: int| k <= j <= n implies (#[trigger] sq[j]).1 == 0 by {
                    assert(sq[j].1 == state_freq(m1, base, j));
                }
                lemma_small_mod(removed as nat, 0x1_0000_0000);
            }
        }
        self.set_num_stats(mc, num_stats_new as u8);
        let n0 = (num_stats + 2) / 2;
        if num_stats_new == 0 {
            let ghost mz = self.mem.bytes();
            proof {
                if ok {
                    assert(sq[0] == state_at(m1, base));
                    assert(mz[base] == m1[base] && mz[base + 1] == m1[base + 1]);
                    assert(mz[base + 2] == m1[base + 2] && mz[base + 3] == m1[base + 3] && mz[base + 4] == m1[base + 4] && mz[base
                        + 5] == m1[base + 5]);
                    assert(mz[mc + 1] == m1[mc + 1]);
                }
            }
            self.rescale_to_binary(mc, stats, n0, esc);
            return (esc, removed, true);
        }
        let n1 = num_stats_new.wrapping_add(2) / 2;
        proof {
            if ok {
                assert(n1 as int == (k + 1) / 2);
            }
        }
        if n0 != n1 {
            let ghost mz = self.mem.bytes();
            let ghost pz = *self;
            let shrunk = self.shrink_units(stats, n0, n1);
            let ghost my = self.mem.bytes();
            self.set_stats(mc, shrunk);
            proof {
                if ok {
                    let m = self.mem.bytes();
                    let pk = shrunk as int;
                    assert(mc.wrapping_add(4) as int == mc + 4);
                    assert(pz.units2index == old(self).units2index);
                    assert(pz.free_list == old(self).free_list);
                    assert(n0 as int == (n + 2) / 2);
                    assert(shrunk == shrink_target(*old(self), stats, n0, n1));
                    assert(old_block_bytes(pz, n0, n1) == old_block_bytes(*old(self), n0, n1));
                    assert(shrink_moves(pz, n0, n1) == shrink_moves(*old(self), n0, n1));
                    assert(m1[mc as int] == n);
                    assert(old(self).mem.spec_rd32(mc.wrapping_add(4)) == stats);
                    if rescale_target_apart(*old(self), k) {
                        assert(6 * k <= n1 * 12);
                        assert(((m1[mc as int] as int + 2) / 2) as u32 == n0);
                        assert(((k + 1) / 2) as u32 == n1);
                        assert(stats + old_block_bytes(*old(self), n0, n1) <= m1.len());
                        assert(stats + old_block_bytes(pz, n0, n1) <= mz.len());
                        assert(shrunk + n1 * 12 <= mz.len());
                        assert forall|j: int| 0 <= j < k implies #[trigger] state_at(m, pk + 6 * j) == sq[j] by {
                            let a = pk + 6 * j;
                            assert forall|x: int| a <= x < a + 6 implies #[trigger] m[x] == m1[x - a + (base + 6 * j)] by {
                                let i = x - pk;
                                assert(my[shrunk + i] == mz[stats + i]);
                                assert(mz[base + i] == m1[base + i]);
                            }
                            lemma_same_state(m, a, m1, base + 6 * j);
                        }
                        assert(states_of(m, pk, k) =~= sq.take(k));
                        assert forall|x: int| mc < x < mc + 4 implies #[trigger] m[x] == m1[x] by {
                            assert(my[x] == mz[x]);
                        }
                        assert(m[mc as int] == my[mc as int]);
                        assert(my[mc as int] == mz[mc as int]);
                    }
                }
            }
        } else {
            proof {
                if ok {
                    let m = self.mem.bytes();
                    assert(mc.wrapping_add(4) as int == mc + 4);
                    assert forall|j: int| 0 <= j < k implies #[trigger] state_at(m, base + 6 * j) == sq[j] by {
                        let a = base + 6 * j;
                        assert forall|x: int| a <= x < a + 6 implies #[trigger] m[x] == m1[x - a + a] by {
                        }
                        lemma_same_state(m, a, m1, a);
                    }
                    assert(states_of(m, base, k) =~= sq.take(k));
                }
            }
        }
        (esc, removed, false)
    }

    /// Makes the context `mc` binary where its states at `stats` keep only their first
    /// one: that state moves into the context, its frequency twice its old one over
    /// `esc_freq`, rounded up, at most 41 (41 where `esc_freq` is zero); the flags keep
    /// the bit for a high previous symbol and get that for a high symbol; the state
    /// becomes the found one; and the block of `n0` units goes back to its free list.
    fn rescale_to_binary(&mut self, mc: u32, stats: u32, n0: u32, esc_freq: u32)
        requires
            old(self).wf(),
            1 <= n0 <= 128,
        ensures
            model_frame(*old(self), *final(self)),
            final(self).min_context == old(self).min_context,
            final(self).max_context == old(self).max_context,
            final(self).order_fall == old(self).order_fall,
            final(self).found_state == mc.wrapping_add(2),
            ({
                let m0 = old(self).mem.bytes();
                let m = final(self).mem.bytes();
                mc + 12 <= m0.len() && stats + 12 <= m0.len() && (mc + 12 <= stats || stats + 12 <= mc) ==> {
                    &&& state_at(m, mc + 2) == (
                        m0[stats as int],
                        binary_freq(m0[stats + 1] as int, esc_freq as int) as u8,
                        le32(m0, stats + 2),
                    )
                    &&& m[mc + 1] as u32 == ((m0[mc + 1] as u32) & 16) + (if m0[stats as int] >= 0x40 { 8u32 } else { 0u32 })
                    &&& m[mc as int] == m0[mc as int]
                    &&& final(self).free_list@[old(self).units2index@[n0 - 1] as int] == stats
                }
            }),
    {
        let ghost m0 = self.mem.bytes();
        let ghost ok = mc + 12 <= m0.len() && stats + 12 <= m0.len() && (mc + 12 <= stats || stats + 12 <= mc);
        let doubled = 2 * self.freq(stats);
        let mut freq = if esc_freq == 0 {
            (MAX_FREQ / 3) as u32
        } else {
            doubled / esc_freq + (if doubled % esc_freq != 0 {
                1u32
            } else {
                0u32
            })
        };
        if freq > (MAX_FREQ / 3) as u32 {
            freq = (MAX_FREQ / 3) as u32;
        }
        let f0 = self.flags(mc);
        let high = f0 & (FLAG_PREV_HIGH as u32);
        assert(f0 & 16 <= 16) by (bit_vector);
        let sym0 = self.sym(stats);
        let fl = high + hi_bits_flag3(sym0);
        self.set_flags(mc, fl as u8);
        let ghost m1 = self.mem.bytes();
        let one = self.single_state(mc);
        self.copy_state(stats, one);
        let ghost m2 = self.mem.bytes();
        self.set_freq(one, freq as u8);
        let ghost m3 = self.mem.bytes();
        self.found_state = one;
        proof {
            if ok {
                assert(stats.wrapping_add(1) as int == stats + 1);
                assert(mc.wrapping_add(1) as int == mc + 1);
                assert(mc.wrapping_add(2) as int == mc + 2);
                assert(mc.wrapping_add(3) as int == mc + 3);
                assert(freq as int == binary_freq(m0[stats + 1] as int, esc_freq as int));
                lemma_copy_state_bytes(m1, m2, stats as int, mc + 2);
                assert(m1[stats as int] == m0[stats as int]);
                assert forall|x: int| stats <= x < stats + 6 implies #[trigger] m1[x] == m0[x] by {
                }
            }
        }
        if let Some(index) = self.u2i(n0) {
            self.insert_node(stats, index);
        }
        proof {
            if ok {
                let m = self.mem.bytes();
                assert(m[mc + 1] == m3[mc + 1]);
                assert(m3[mc + 1] == m2[mc + 1]);
                assert(m2[mc + 1] == m1[mc + 1]);
                assert(m[mc as int] == m0[mc as int]) by {
                    assert(m3[mc as int] == m2[mc as int]);
                    assert(m2[mc as int] == m1[mc as int]);
                }
                assert forall|x: int| mc + 2 <= x < mc + 8 implies #[trigger] m[x] == m3[x] by {
                }
                assert(m[mc + 2] == m0[stats as int]);
                assert(m[mc + 3] == freq as u8);
                assert(m[mc + 4] == m0[stats + 2] && m[mc + 5] == m0[stats + 3] && m[mc + 6] == m0[stats + 4] && m[mc + 7]
                    == m0[stats + 5]);
            }
        }
    }

    /// Sets the sum of the context `mc` to `sum_freq` plus `esc_freq` less half of it,
    /// rounding down (in 32 bits, then taken modulo 2^16), marks the context as
    /// rescaled, and makes its first state the found one.
    fn finish_rescale(&mut self, mc: u32, sum_freq: u32, esc_freq: u32)
        requires
            old(self).wf(),
        ensures
            model_frame(*old(self), *final(self)),
            final(self).min_context == old(self).min_context,
            final(self).max_context == old(self).max_context,
            final(self).order_fall == old(self).order_fall,
            final(self).found_state == final(self).mem.spec_rd32(mc.wrapping_add(4)),
            ({
                let m0 = old(self).mem.bytes();
                let m = final(self).mem.bytes();
                mc + 12 <= m0.len() ==> {
                    &&& le16(m, mc + 2) == rescaled_summ(sum_freq as int, esc_freq as int)
                    &&& m[mc + 1] as u32 == (m0[mc + 1] as u32 | 4)
                    &&& forall|x: int| 0 <= x < m0.len() && !(mc + 1 <= x < mc + 4) ==> #[trigger] m[x] == m0[x]
                    &&& final(self).found_state == le32(m0, mc + 4)
                }
            }),
    {
        let ghost m0 = self.mem.bytes();
        let raised = sum_freq.wrapping_add(esc_freq);
        let summ = raised.wrapping_sub(esc_freq / 2);
        self.set_summ_freq(mc, (summ % 0x1_0000) as u16);
        let ghost m1 = self.mem.bytes();
        let f0 = self.flags(mc);
        let fl = f0 | (FLAG_RESCALED as u32);
        assert(f0 < 256 ==> (f0 | 4) < 256) by (bit_vector);
        self.set_flags(mc, fl as u8);
        self.found_state = self.stats(mc);
        proof {
            if mc + 12 <= m0.len() {
                let m = self.mem.bytes();
                assert(mc.wrapping_add(1) as int == mc + 1);
                assert(mc.wrapping_add(2) as int == mc + 2);
                assert(mc.wrapping_add(4) as int == mc + 4);
                let e = esc_freq as int;
                let x = sum_freq + e - e / 2;
                assert(raised as int == (sum_freq + e) % 0x1_0000_0000);
                assert(summ as int == (raised - e / 2) % 0x1_0000_0000);
                lemma_small_mod((e / 2) as nat, 0x1_0000_0000);
                lemma_small_mod(esc_freq as nat, 0x1_0000_0000);
                lemma_sub_mod_noop(sum_freq + e, e / 2, 0x1_0000_0000);
                lemma_mod_mod(x, 0x1_0000, 0x1_0000);
                assert(m[mc + 2] == m1[mc + 2] && m[mc + 3] == m1[mc + 3]);
                assert(m1[mc + 1] == m0[mc + 1]);
                assert forall|x: int| 0 <= x < m0.len() && !(mc + 1 <= x < mc + 4) implies #[trigger] m[x] == m0[x] by {
                    assert(m[x] == m1[x]);
                }
                assert(m[mc + 4] == m0[mc + 4] && m[mc + 5] == m0[mc + 5] && m[mc + 6] == m0[mc + 6] && m[mc + 7] == m0[mc + 7]);
            }
        }
    }

    /// Halves the frequencies of the current context, the found state's raised by four
    /// first (rounding up where the model has fallen back from a longer order), sorts
    /// the states by frequency starting from the found one, drops the states whose
    /// frequency fell to zero, recounts the sum and makes the first state the found
    /// one. A context left with one state becomes binary.
    ///
    /// Where the found state is one of the context's states, which lie apart from it
    /// (`rescale_in_place`), `rescaled` says what comes of the context; where moreover
    /// no frequency falls to zero, `rescaled_whole` says it more simply: the context
    /// keeps all its states, each with its frequency halved, sorted by frequency, the
    /// first of them the found state, its sum recounted and marked as rescaled.
    #[verifier::spinoff_prover]
    #[verifier::rlimit(100)]
    pub fn rescale(&mut self)
        requires
            old(self).wf(),
        ensures
            model_frame(*old(self), *final(self)),
            final(self).min_context == old(self).min_context,
            final(self).max_context == old(self).max_context,
            final(self).order_fall == old(self).order_fall,
            final(self).found_state == final(self).mem.spec_rd32(old(self).min_context.wrapping_add(4))
                || final(self).found_state == old(self).min_context.wrapping_add(2),
            rescale_in_place(*old(self)) ==> rescaled(*old(self), *final(self)),
            rescale_keeps_all(*old(self)) ==> rescaled_whole(*old(self), *final(self)),
    {
        let ghost m0 = self.mem.bytes();
        let ghost keep = rescale_keeps_all(*self);
        let ghost inplace = rescale_in_place(*self);
        let mc = self.min_context;
        let stats = self.stats(mc);
        let ghost base = stats as int;
        let ghost nn = m0[mc as int] as int;
        let mut s = self.found_state;
        let ghost t = (s - stats) / 6;
        proof {
            if inplace {
                assert(mc.wrapping_add(4) as int == mc + 4);
                assert(m0[mc as int] == self.mem.spec_rd8(mc));
            }
        }
        if s != stats {
            self.mem.move_to_front(stats, s);
            proof {
                if inplace {
                    assert(s as int == base + 6 * t);
                    lemma_front_block(self.mem.bytes(), m0, base, t, nn);
                }
            }
        } else {
            proof {
                if inplace {
                    assert(moved_to_front(m0, m0, base, t, nn));
                }
            }
        }
        let ghost m_rot = self.mem.bytes();
        let ghost ad = rescale_adder(*old(self));
        let ghost hr = Seq::new((nn + 1) as nat, |j: int| halved_state(state_at(m_rot, base + 6 * j), j == 0, ad));
        proof {
            if inplace {
                assert(moved_to_front(m_rot, m0, base, t, nn));
                lemma_halved_front_multiset(m_rot, m0, base, t, nn, ad);
            }
            if keep {
                lemma_front_positive(m_rot, m0, base, t, nn, ad);
            }
        }
        let ghost summ0 = le16(m0, mc + 2);
        let summ = self.summ_freq(mc);
        let adder: u32 = if self.order_fall != 0 {
            1
        } else {
            0
        };
        let num_stats = self.num_stats(mc);
        let n = if num_stats == 0 {
            1
        } else {
            num_stats
        };
        proof {
            if inplace {
                assert(mc.wrapping_add(2) as int == mc + 2);
                assert(m_rot[mc + 2] == m0[mc + 2] && m_rot[mc + 3] == m0[mc + 3]);
                assert(summ == summ0);
                assert(m_rot[mc as int] == m0[mc as int]);
                assert(n == nn);
            }
        }
        let (sum_freq, esc) = self.mem.halve_states(stats, n, adder, summ);
        let mut esc_freq = esc;
        proof {
            if inplace {
                let m = self.mem.bytes();
                assert(states_of(m, base, nn + 1).to_multiset() == hr.to_multiset());
                assert forall|a: int| 0 <= a < m0.len() && !(base <= a < base + 6 * (nn + 1)) implies #[trigger] m[a]
                    == m0[a] by {
                    assert(m[a] == m_rot[a]);
                }
                assert(hr.to_multiset() == halved_states(*old(self)).to_multiset());
                assert(esc as int == (summ0 - freq_sum(m0, base, nn + 1)) % 0x1_0000_0000);
            }
            if keep {
                assert(all_at_least(self.mem.bytes(), base, nn + 1, 1));
            }
        }
        let ghost m_s = self.mem.bytes();
        let ghost sq = states_of(m_s, base, nn + 1);
        let ghost mut kept: int = nn + 1;
        let ghost mut pk: int = base;
        s = stats.wrapping_add(n * STATE_SIZE);
        proof {
            if inplace {
                assert(s.wrapping_add(1) as int == base + 6 * nn + 1);
            }
            if keep {
                assert(state_freq(self.mem.bytes(), base, nn) >= 1);
            }
        }
        if self.freq(s) == 0 {
            proof {
                if inplace {
                    assert(drop_ok(*self, mc, stats, n)) by {
                        assert(m_s[mc as int] == m0[mc as int]);
                        assert forall|x: int| mc + 4 <= x < mc + 8 implies #[trigger] m_s[x] == m0[x] by {
                        }
                    }
                }
            }
            let ghost pd = *self;
            let (e2, removed, binary) = self.drop_states(mc, stats, n, esc_freq);
            esc_freq = e2;
            proof {
                if inplace {
                    kept = nn + 1 - removed;
                    assert(m_s[mc as int] == m0[mc as int]);
                    assert(rescale_target_apart(pd, kept) == rescale_target_apart(*old(self), kept)) by {
                        assert forall|x: int| mc <= x < mc + 8 implies #[trigger] m_s[x] == m0[x] by {
                        }
                    }
                    lemma_kept_states(sq, kept, halved_states(*old(self)).to_multiset());
                    lemma_add_mod_noop(summ0 - freq_sum(m0, base, nn + 1), removed as int, 0x1_0000_0000);
                    lemma_small_mod(removed as nat, 0x1_0000_0000);
                    assert(esc_freq as int == (summ0 - freq_sum(m0, base, nn + 1) + removed) % 0x1_0000_0000);
                    assert forall|j: int| kept <= j < nn + 1 implies #[trigger] state_freq(m_s, base, j) == 0 by {
                        assert(sq[j].1 == state_freq(m_s, base, j));
                    }
                    lemma_freq_sum_zero_tail(m_s, base, kept, nn + 1);
                }
            }
            if binary {
                proof {
                    if inplace {
                        lemma_first_is_found(sq, halved_states(*old(self)), t);
                        reveal(rescaled);
                    }
                }
                return;
            }
            proof {
                if inplace {
                    let n0 = ((nn + 2) / 2) as u32;
                    let n1 = ((kept + 1) / 2) as u32;
                    pk = if n0 == n1 { base } else { shrink_target(*old(self), stats, n0, n1) as int };
                }
            }
        } else {
            proof {
                if inplace {
                    assert forall|j: int| 0 <= j < nn + 1 implies (#[trigger] sq[j]).1 > 0 by {
                        assert(sq[j].1 == state_freq(m_s, base, j));
                        assert(state_freq(m_s, base, j) >= state_freq(m_s, base, nn));
                    }
                    lemma_kept_states(sq, nn + 1, halved_states(*old(self)).to_multiset());
                    assert(sq.take(nn + 1) =~= sq);
                    let m = self.mem.bytes();
                    assert(states_of(m, base, nn + 1) =~= sq.take(nn + 1));
                }
            }
        }
        let ghost mb = self.mem.bytes();
        self.finish_rescale(mc, sum_freq, esc_freq);
        proof {
            let m = self.mem.bytes();
            if inplace {
                let h = halved_states(*old(self));
                let e = summ0 - freq_sum(m0, base, nn + 1) + (nn + 1 - kept);
                assert(nonzero_part(h.to_multiset()).len() == kept);
                assert(2 <= kept <= nn + 1);
                assert(mc.wrapping_add(4) as int == mc + 4);
                assert(le32(mb, mc + 4) == pk);
                assert(self.found_state == pk);
                assert(esc_freq as int == e % 0x1_0000_0000);
                lemma_small_mod(esc_freq as nat, 0x1_0000_0000);
                assert(rescaled_summ(sum_freq as int, esc_freq as int) == rescaled_summ(sum_freq as int, e));
                assert(sum_freq == freq_sum(m_s, base, kept));
                if rescale_target_apart(*old(self), kept) {
                    assert(states_of(mb, pk, kept) == sq.take(kept));
                    assert(mb[mc as int] == kept - 1);
                    assert(mb[mc + 1] == m0[mc + 1]);
                    assert(mc + 12 <= pk || pk + 6 * kept <= mc);
                    assert forall|j: int| 0 <= j < kept implies #[trigger] state_at(m, pk + 6 * j) == state_at(mb, pk + 6 * j) by {
                        let a = pk + 6 * j;
                        assert forall|x: int| a <= x < a + 6 implies #[trigger] m[x] == mb[x - a + a] by {
                        }
                        lemma_same_state(m, a, mb, a);
                    }
                    assert(states_of(m, pk, kept) =~= sq.take(kept));
                    assert forall|j: int| 0 <= j < kept implies #[trigger] state_freq(m, pk, j) == state_freq(m_s, base, j) by {
                        assert(states_of(m, pk, kept)[j] == sq[j]);
                        assert(sq[j] == state_at(m_s, base + 6 * j));
                    }
                    assert forall|j: int| 0 <= j < kept implies #[trigger] m[pk + 6 * j + 1] == m_s[base + 6 * j + 1] by {
                        assert(state_freq(m, pk, j) == state_freq(m_s, base, j));
                    }
                    lemma_freq_sum_moved(m, pk, m_s, base, kept);
                    assert forall|a: int, b: int| 0 <= a < b < kept implies #[trigger] state_freq(m, pk, a) >= #[trigger] state_freq(
                        m,
                        pk,
                        b,
                    ) by {
                        assert(state_freq(m_s, base, a) >= state_freq(m_s, base, b));
                    }
                    assert forall|j: int| 0 <= j < kept implies #[trigger] state_freq(m, pk, j) >= 1 by {
                        assert(sq[j].1 > 0);
                        assert(sq[j] == state_at(m_s, base + 6 * j));
                    }
                    assert(m[mc as int] == mb[mc as int]);
                }
                reveal(rescaled);
            }
            if keep {
                lemma_whole_from_rescaled(*old(self), *self);
            }
        }
    }

    /// Where the escape estimator for the current context lies: its row, by the
    /// number of states `num_stats + 1`, and its column.
    pub fn calculate_see_table_hash(&self, num_masked: u32, num_stats: u32) -> (r: (usize, usize))
        requires
            self.wf(),
            1 <= num_stats <= 254,
        ensures
            r.0 == self.ns2index@[num_stats + 2] - 3,
            r.0 < 24,
            r.1 == see_column(
                self.mem.spec_rd16(self.min_context.wrapping_add(2)) as int,
                num_stats as int,
                self.mem.spec_rd8(self.mem.spec_rd32(self.min_context.wrapping_add(8))) as int,
                num_masked as int,
                self.mem.spec_rd8(self.min_context.wrapping_add(1)) as int,
            ),
    {
        let mc = self.min_context;
        proof {
            lemma_see_row(self.ns2index@, num_stats + 2);
        }
        let base = self.ns2index[(num_stats + 2) as usize] as usize - 3;
        let suffix_num_stats = self.num_stats(self.suffix(mc));
        let summ = self.summ_freq(mc);
        let freq_hash: usize = if summ > 11 * (num_stats + 1) {
            1
        } else {
            0
        };
        let hierarchy_hash: usize = if ((2 * num_stats) as u64) < (suffix_num_stats as u64) + (num_masked as u64) {
            2
        } else {
            0
        };
        let flags = self.flags(mc) as usize;
        (base, freq_hash + hierarchy_hash + flags)
    }

    /// Takes the escape frequency for the current context, which has more than one
    /// state, from its estimator, and lowers the estimator by it; the context with
    /// all 256 symbols uses a fixed estimate of one. Returns where the estimator
    /// lies, to be updated once the symbol is known.
    pub fn make_esc_freq(&mut self, num_masked: u32, esc_freq: &mut u32) -> (r: SeeSource)
        requires
            old(self).wf(),
            old(self).mem.spec_rd8(old(self).min_context) != 0,
        ensures
            model_frame(*old(self), *final(self)),
            final(self).mem == old(self).mem,
            final(self).min_context == old(self).min_context,
            r matches SeeSource::Table(i, k) ==> {
                let e = old(self).see@[i * 32 + k];
                let esc = see_escape(e);
                &&& i < 24 && k < 32
                &&& final(self).see@ == old(self).see@.update(
                    i * 32 + k,
                    See { summ: (e.summ - esc) as u16, ..e },
                )
                &&& *final(esc_freq) == (if esc == 0 { 1 } else { esc })
            },
            r is Dummy ==> *final(esc_freq) == 1 && final(self).see == old(self).see,
            old(self).mem.spec_rd8(old(self).min_context) == 255 ==> r is Dummy,
    {
        let num_stats = self.num_stats(self.min_context);
        if num_stats != 0xFF {
            let (i, k) = self.calculate_see_table_hash(num_masked, num_stats);
            if k < 32 {
                let e = self.see[i * 32 + k];
                let summ = e.summ as u32;
                let sh = e.shift as u32;
                let esc = if sh < 32 {
                    summ >> sh
                } else {
                    0
                };
                assert(summ >> sh <= summ) by (bit_vector);
                self.see.set(i * 32 + k, See { summ: (summ - esc) as u16, ..e });
                *esc_freq = if esc == 0 {
                    1
                } else {
                    esc
                };
                return SeeSource::Table(i, k);
            }
        }
        *esc_freq = 1;
        SeeSource::Dummy
    }

    /// The escape estimator at `src`.
    pub fn get_see(&self, src: SeeSource) -> (e: See)
        requires
            self.wf(),
            src matches SeeSource::Table(i, k) ==> i < 24 && k < 32,
        ensures
            src is Dummy ==> e == self.dummy_see,
            src matches SeeSource::Table(i, k) ==> e == self.see@[i * 32 + k],
    {
        match src {
            SeeSource::Dummy => self.dummy_see,
            SeeSource::Table(i, k) => self.see[i * 32 + k],
        }
    }

    /// Stores `e` as the escape estimator at `src`.
    pub fn set_see(&mut self, src: SeeSource, e: See)
        requires
            old(self).wf(),
            src matches SeeSource::Table(i, k) ==> i < 24 && k < 32,
        ensures
            model_frame(*old(self), *final(self)),
            final(self).mem == old(self).mem,
            src is Dummy ==> final(self).dummy_see == e && final(self).see == old(self).see,
            src matches SeeSource::Table(i, k) ==> final(self).see@ == old(self).see@.update(i * 32 + k, e)
                && final(self).dummy_see == old(self).dummy_see,
    {
        match src {
            SeeSource::Dummy => self.dummy_see = e,
            SeeSource::Table(i, k) => self.see.set(i * 32 + k, e),
        }
    }

    /// Where the probability of the current binary context lies in `bin_summ`, or
    /// `None` where the state's frequency or flags put it outside the table.
    pub fn get_bin_summ(&self) -> (r: Option<usize>)
        requires
            self.wf(),
        ensures
            ({
                let mc = self.min_context;
                let freq = self.mem.spec_rd8(mc.wrapping_add(3)) as int;
                let suffix_ns = self.mem.spec_rd8(self.mem.spec_rd32(mc.wrapping_add(8))) as int;
                let row = self.ns2index@[freq - 1] as int;
                let col = bin_column(
                    self.prev_success,
                    self.run_length,
                    self.ns2bs_index@[suffix_ns] as u32,
                    self.mem.spec_rd8(mc.wrapping_add(1)) as u32,
                ) as int;
                if freq != 0 && row < 25 && col < 64 {
                    r == Some((row * 64 + col) as usize)
                } else {
                    r is None
                }
            }),
            freq_in_table(self.mem.spec_rd8(self.min_context.wrapping_add(3)) as int)
                ==> self.ns2index@[self.mem.spec_rd8(self.min_context.wrapping_add(3)) - 1] < 25,
    {
        let mc = self.min_context;
        let one = self.single_state(mc);
        let freq = self.freq(one);
        if freq != 0 && freq < 215 {
            proof {
                lemma_bin_row(self.ns2index@, freq - 1);
            }
        }
        if freq == 0 {
            return None;
        }
        let row = self.ns2index[(freq - 1) as usize] as usize;
        let suffix_ns = self.num_stats(self.suffix(mc));
        let col = self.prev_success.wrapping_add(((self.run_length as u32) >> 26) & 0x20).wrapping_add(
            self.ns2bs_index[suffix_ns as usize] as u32,
        ).wrapping_add(self.flags(mc));
        if row < 25 && col < 64 {
            Some(row * 64 + col as usize)
        } else {
            None
        }
    }

    /// Moves on to the context that follows the found symbol where it already exists
    /// at full order, and updates the model otherwise (from the shortest context, with
    /// no successor yet, that is one step along the text).
    pub fn next_context(&mut self)
        requires
            old(self).wf(),
        ensures
            model_frame(*old(self), *final(self)),
            final(self).min_context == final(self).max_context,
            ({
                let succ = old(self).mem.spec_rd32(old(self).found_state.wrapping_add(2));
                old(self).order_fall == 0 && succ >= old(self).units_start ==> *final(self) == Ppmd8 {
                    min_context: succ,
                    max_context: succ,
                    ..*old(self)
                }
            }),
            first_text_step(*old(self)) ==> text_step_taken(*old(self), *final(self)),
    {
        let successor = self.successor(self.found_state);
        if self.order_fall == 0 && self.is_real_context(successor) {
            self.min_context = successor;
            self.max_context = successor;
        } else {
            self.update_model();
        }
    }

    /// Updates the model after a symbol found in the current context other than in
    /// its first state: its frequency rises by four, it moves ahead of the state
    /// before it where it now has the higher frequency, and the context is rescaled
    /// when that frequency passes `MAX_FREQ`.
    ///
    /// Where the state and the one before it lie apart from the context, no rescale
    /// is due, the model is at full order and the state's successor is a context,
    /// that context becomes the current one, and only those counts and places change
    /// besides. Where instead the context is the shortest one and the state has no
    /// successor yet, the symbol is also written to the text and the state, in its
    /// new place, leads to the text that follows.
    #[verifier::spinoff_prover]
    #[verifier::rlimit(60)]
    pub fn update1(&mut self)
        requires
            old(self).wf(),
        ensures
            model_frame(*old(self), *final(self)),
            final(self).min_context == final(self).max_context,
            ({
                let m0 = old(self).mem.bytes();
                let m = final(self).mem.bytes();
                let s = old(self).found_state as int;
                let mc = old(self).min_context;
                let f = m0[s + 1] as int;
                let summ = le16(m0, mc + 2);
                let succ = le32(m0, s + 2);
                let moved = f + 4 > m0[s - 5];
                let fs = if moved { s - 6 } else { s };
                fast_update_apart(*old(self)) && s >= 6 && (mc + 12 <= s - 6 || s + 6 <= mc) && f + 4 <= MAX_FREQ && succ
                    >= old(self).units_start ==> {
                    &&& state_at(m, fs) == (m0[s], (f + 4) as u8, succ)
                    &&& moved ==> state_at(m, s) == state_at(m0, s - 6)
                    &&& le16(m, mc + 2) == (summ + 4) % 0x1_0000
                    &&& forall|x: int| 0 <= x < m0.len() && !(s - 6 <= x < s + 6) && !(mc + 2 <= x < mc + 4) ==> #[trigger] m[x] == m0[x]
                    &&& !moved ==> forall|x: int| s - 6 <= x < s ==> #[trigger] m[x] == m0[x]
                    &&& *final(self) == (Ppmd8 {
                        min_context: succ as u32,
                        max_context: succ as u32,
                        found_state: fs as u32,
                        mem: final(self).mem,
                        ..*old(self)
                    })
                }
            }),
            ({
                let m0 = old(self).mem.bytes();
                let m = final(self).mem.bytes();
                let s = old(self).found_state as int;
                let mc = old(self).min_context;
                let t = old(self).text as int;
                let f = m0[s + 1] as int;
                let summ = le16(m0, mc + 2);
                let moved = f + 4 > m0[s - 5];
                let fs = if moved { s - 6 } else { s };
                update1_apart(*old(self)) && (t + 1 <= s - 6 || s + 6 <= t) && (t + 1 <= mc || mc + 12 <= t) && f + 4 <= MAX_FREQ
                    && first_text_step(*old(self)) ==> {
                    &&& state_at(m, fs) == (m0[s], (f + 4) as u8, t + 1)
                    &&& moved ==> state_at(m, s) == state_at(m0, s - 6)
                    &&& le16(m, mc + 2) == (summ + 4) % 0x1_0000
                    &&& m[t] == m0[s]
                    &&& forall|x: int|
                        0 <= x < m0.len() && x != t && !(s - 6 <= x < s + 6) && !(mc + 2 <= x < mc + 4) ==> #[trigger] m[x]
                            == m0[x]
                    &&& *final(self) == (Ppmd8 {
                        text: (t + 1) as u32,
                        found_state: fs as u32,
                        mem: final(self).mem,
                        ..*old(self)
                    })
                }
            }),
    {
        let ghost m0 = self.mem.bytes();
        let ghost apart = update1_apart(*self);
        let ghost tx = apart && (self.text + 1 <= self.found_state - 6 || self.found_state + 6 <= self.text) && (self.text + 1
            <= self.min_context || self.min_context + 12 <= self.text) && first_text_step(*self);
        let mut s = self.found_state;
        let freq = self.freq(s) + 4;
        let mc = self.min_context;
        let summ = (self.summ_freq(mc) as u16).wrapping_add(4);
        self.set_summ_freq(mc, summ);
        let ghost m1 = self.mem.bytes();
        self.set_freq(s, freq as u8);
        let ghost m2 = self.mem.bytes();
        let prev = s.wrapping_sub(STATE_SIZE);
        proof {
            if apart {
                let si = s as int;
                assert(s.wrapping_add(1) as int == si + 1);
                assert(mc.wrapping_add(2) as int == mc + 2);
                assert(prev as int == si - 6);
                assert(prev.wrapping_add(1) as int == si - 5);
                assert(summ as int == (le16(m0, mc + 2) + 4) % 0x1_0000);
                assert forall|x: int| 0 <= x < m0.len() && x != si + 1 && !(mc + 2 <= x < mc + 4) implies #[trigger] m2[x] == m0[x] by {
                    assert(m2[x] == m1[x]);
                }
                assert(m2[mc + 2] == m1[mc + 2] && m2[mc + 3] == m1[mc + 3]);
                assert(state_at(m2, si) == (m0[si], (freq as int) as u8, le32(m0, si + 2)));
                assert(m2[si - 5] == m0[si - 5]);
            }
        }
        if freq > self.freq(prev) {
            self.swap_states(s, prev);
            s = prev;
            self.found_state = s;
            proof {
                if apart {
                    let m = self.mem.bytes();
                    let si = self.found_state as int + 6;
                    assert(state_at(m2, si - 6) == state_at(m0, si - 6)) by {
                        assert(m2[si - 6] == m0[si - 6] && m2[si - 5] == m0[si - 5] && m2[si - 4] == m0[si - 4]);
                        assert(m2[si - 3] == m0[si - 3] && m2[si - 2] == m0[si - 2] && m2[si - 1] == m0[si - 1]);
                    }
                    assert(s.wrapping_add(2) as int == si - 4);
                    assert(m[si - 4] == m2[si + 2] && m[si - 3] == m2[si + 3] && m[si - 2] == m2[si + 4] && m[si - 1] == m2[si + 5]);
                    assert(self.mem.spec_rd32(s.wrapping_add(2)) as int == le32(m0, si + 2));
                    assert(m[mc + 2] == m2[mc + 2] && m[mc + 3] == m2[mc + 3]);
                }
            }
            if freq > MAX_FREQ as u32 {
                self.rescale();
            }
        } else {
            proof {
                if apart {
                    let si = s as int;
                    assert(s.wrapping_add(2) as int == si + 2);
                    assert(self.mem.spec_rd32(s.wrapping_add(2)) as int == le32(m0, si + 2));
                    assert forall|x: int| si - 6 <= x < si implies #[trigger] m2[x] == m0[x] by {
                        assert(x != si + 1);
                    }
                }
            }
        }
        let ghost pre = *self;
        proof {
            if tx && freq <= MAX_FREQ {
                let m = self.mem.bytes();
                let c8 = mc + 8;
                let s0 = old(self).found_state as int;
                assert(mc.wrapping_add(8) as int == c8);
                assert(m[c8] == m0[c8] && m[c8 + 1] == m0[c8 + 1] && m[c8 + 2] == m0[c8 + 2] && m[c8 + 3] == m0[c8 + 3]);
                assert(self.mem.spec_rd32(self.found_state.wrapping_add(2)) == 0);
                assert(self.mem.spec_rd32(mc.wrapping_add(8)) == 0);
                assert(first_text_step(*self));
            }
        }
        self.next_context();
        proof {
            if tx && freq <= MAX_FREQ {
                let m = self.mem.bytes();
                let mp = pre.mem.bytes();
                let s0 = old(self).found_state as int;
                let t = old(self).text as int;
                let fs = s as int;
                assert(text_step_taken(pre, *self));
                assert(m[fs] == mp[fs] && m[fs + 1] == mp[fs + 1]);
                assert(s.wrapping_add(2) as int == fs + 2);
                assert(le32(m, fs + 2) == t + 1);
                assert(m[mc + 2] == mp[mc + 2] && m[mc + 3] == mp[mc + 3]);
                assert forall|x: int|
                    0 <= x < m0.len() && x != t && !(s0 - 6 <= x < s0 + 6) && !(mc + 2 <= x < mc + 4) implies #[trigger] m[x]
                        == m0[x] by {
                    assert(m[x] == mp[x]);
                }
            }
        }
    }

    /// Updates the model after the symbol of the first state of the current context
    /// was found: notes whether it was a likely one, raises its frequency by four
    /// and rescales the context when it passes `MAX_FREQ`.
    ///
    /// Where the state lies apart from the context, no rescale is due, the model is
    /// at full order and the state's successor is a context, that context becomes
    /// the current one, and only those counts change besides. Where instead the
    /// context is the shortest one and the state has no successor yet, the symbol is
    /// written to the text and the state leads to the text that follows.
    pub fn update1_0(&mut self)
        requires
            old(self).wf(),
        ensures
            model_frame(*old(self), *final(self)),
            final(self).min_context == final(self).max_context,
            ({
                let m0 = old(self).mem.bytes();
                let m = final(self).mem.bytes();
                let s = old(self).found_state;
                let mc = old(self).min_context;
                let f = m0[s + 1] as int;
                let summ = le16(m0, mc + 2);
                let succ = old(self).mem.spec_rd32(s.wrapping_add(2));
                let likely: u32 = if 2 * f >= summ { 1 } else { 0 };
                fast_update_apart(*old(self)) && f + 4 <= MAX_FREQ && succ >= old(self).units_start ==> {
                    &&& m[s + 1] == f + 4
                    &&& le16(m, mc + 2) == (summ + 4) % 0x1_0000
                    &&& forall|x: int| 0 <= x < m0.len() && x != s + 1 && !(mc + 2 <= x < mc + 4) ==> #[trigger] m[x] == m0[x]
                    &&& *final(self) == (Ppmd8 {
                        min_context: succ,
                        max_context: succ,
                        prev_success: likely,
                        run_length: old(self).run_length.wrapping_add(likely as i32),
                        mem: final(self).mem,
                        ..*old(self)
                    })
                }
            }),
            ({
                let m0 = old(self).mem.bytes();
                let m = final(self).mem.bytes();
                let s = old(self).found_state;
                let mc = old(self).min_context;
                let t = old(self).text;
                let f = m0[s + 1] as int;
                let summ = le16(m0, mc + 2);
                let likely: u32 = if 2 * f >= summ { 1 } else { 0 };
                text_update_apart(*old(self)) && first_text_step(*old(self)) && f + 4 <= MAX_FREQ ==> {
                    &&& m[s + 1] == f + 4
                    &&& le16(m, mc + 2) == (summ + 4) % 0x1_0000
                    &&& m[t as int] == m0[s as int]
                    &&& final(self).mem.spec_rd32(s.wrapping_add(2)) == t + 1
                    &&& forall|x: int|
                        0 <= x < m0.len() && x != t && !(s + 1 <= x < s + 6) && !(mc + 2 <= x < mc + 4) ==> #[trigger] m[x]
                            == m0[x]
                    &&& *final(self) == (Ppmd8 {
                        text: (t + 1) as u32,
                        prev_success: likely,
                        run_length: old(self).run_length.wrapping_add(likely as i32),
                        mem: final(self).mem,
                        ..*old(self)
                    })
                }
            }),
    {
        let ghost m0 = self.mem.bytes();
        let ghost tstep = text_update_apart(*old(self)) && first_text_step(*old(self));
        let s = self.found_state;
        let mc = self.min_context;
        let freq = self.freq(s);
        let summ = self.summ_freq(mc);
        self.prev_success = if 2 * freq >= summ {
            1
        } else {
            0
        };
        self.run_length = self.run_length.wrapping_add(self.prev_success as i32);
        self.set_summ_freq(mc, ((summ + 4) % 0x1_0000) as u16);
        let ghost m1 = self.mem.bytes();
        let freq = freq + 4;
        self.set_freq(s, freq as u8);
        proof {
            if fast_update_apart(*old(self)) {
                let m = self.mem.bytes();
                assert(s.wrapping_add(1) as int == s + 1);
                assert(s.wrapping_add(2) as int == s + 2);
                assert(mc.wrapping_add(2) as int == mc + 2);
                assert(freq - 4 == m0[s + 1]);
                assert(summ == le16(m0, mc + 2));
                assert(m[s + 2] == m0[s + 2] && m[s + 3] == m0[s + 3] && m[s + 4] == m0[s + 4] && m[s + 5] == m0[s + 5]) by {
                    assert(m1[s + 2] == m0[s + 2] && m1[s + 3] == m0[s + 3] && m1[s + 4] == m0[s + 4] && m1[s + 5] == m0[s + 5]);
                }
                assert(self.mem.spec_rd32(s.wrapping_add(2)) == old(self).mem.spec_rd32(s.wrapping_add(2)));
                assert(m[mc + 2] == m1[mc + 2] && m[mc + 3] == m1[mc + 3]);
                assert forall|x: int| 0 <= x < m0.len() && x != s + 1 && !(mc + 2 <= x < mc + 4) implies #[trigger] m[x] == m0[x] by {
                    assert(m[x] == m1[x]);
                }
            }
        }
        proof {
            if tstep {
                let m = self.mem.bytes();
                let si = s as int;
                let c8 = mc + 8;
                assert(s.wrapping_add(1) as int == si + 1);
                assert(s.wrapping_add(2) as int == si + 2);
                assert(mc.wrapping_add(2) as int == mc + 2);
                assert(mc.wrapping_add(8) as int == c8);
                assert(m[si + 2] == m0[si + 2] && m[si + 3] == m0[si + 3] && m[si + 4] == m0[si + 4] && m[si + 5] == m0[si + 5]) by {
                    assert(m1[si + 2] == m0[si + 2] && m1[si + 3] == m0[si + 3] && m1[si + 4] == m0[si + 4] && m1[si + 5] == m0[si + 5]);
                }
                assert(m[c8] == m0[c8] && m[c8 + 1] == m0[c8 + 1] && m[c8 + 2] == m0[c8 + 2] && m[c8 + 3] == m0[c8 + 3]) by {
                    assert(m1[c8] == m0[c8] && m1[c8 + 1] == m0[c8 + 1] && m1[c8 + 2] == m0[c8 + 2] && m1[c8 + 3] == m0[c8 + 3]);
                }
                assert(m[si] == m0[si]) by {
                    assert(m1[si] == m0[si]);
                }
                assert(m[mc + 2] == m1[mc + 2] && m[mc + 3] == m1[mc + 3]);
                assert forall|x: int| 0 <= x < m0.len() && x != si + 1 && !(mc + 2 <= x < mc + 4) implies #[trigger] m[x] == m0[x] by {
                    assert(m[x] == m1[x]);
                }
                assert(first_text_step(*self));
            }
        }
        let ghost pre = *self;
        if freq > MAX_FREQ as u32 {
            self.rescale();
        }
        self.next_context();
        proof {
            if tstep && freq <= MAX_FREQ {
                let m = self.mem.bytes();
                let mp = pre.mem.bytes();
                let si = s as int;
                assert(text_step_taken(pre, *self));
                assert(m[si + 1] == mp[si + 1]);
                assert(m[mc + 2] == mp[mc + 2] && m[mc + 3] == mp[mc + 3]);
                assert(m[old(self).text as int] == mp[si]);
                assert forall|x: int|
                    0 <= x < m0.len() && x != old(self).text && !(si + 1 <= x < si + 6) && !(mc + 2 <= x < mc + 4) implies #[trigger] m[x]
                        == m0[x] by {
                    assert(m[x] == mp[x]);
                }
            }
        }
    }

    /// Updates the model after a symbol found past an escape: its frequency rises by
    /// four, the run of likely symbols starts over, and the model grows.
    pub fn update2(&mut self)
        requires
            old(self).wf(),
        ensures
            model_frame(*old(self), *final(self)),
            final(self).min_context == final(self).max_context,
            final(self).run_length == final(self).init_rl,
            old(self).restore_method == super::RestoreMethod::Restart && old(self).order_fall != 0 && old(self).text.wrapping_add(1)
                >= old(self).units_start && old(self).mem.spec_rd8(old(self).found_state.wrapping_add(1)) + 4 <= MAX_FREQ
                ==> final(self).started(),
            plain_escape_step(*old(self)) ==> ({
                let fs = old(self).found_state;
                let c2 = old(self).min_context.wrapping_add(2);
                &&& *final(self) == (Ppmd8 {
                    mem: final(self).mem,
                    text: (old(self).text + 1) as u32,
                    run_length: old(self).init_rl,
                    ..*old(self)
                })
                &&& final(self).mem.spec_rd8(fs.wrapping_add(1)) == old(self).mem.spec_rd8(fs.wrapping_add(1)) + 4
                &&& final(self).mem.spec_rd16(c2) == (old(self).mem.spec_rd16(c2) as u16).wrapping_add(4)
                &&& final(self).mem.spec_rd8(old(self).text) == old(self).mem.spec_rd8(fs)
                &&& final(self).mem.spec_rd32(fs.wrapping_add(2)) == old(self).text + 1
            }),
    {
        let s = self.found_state;
        let freq = self.freq(s) + 4;
        let mc = self.min_context;
        let summ = (self.summ_freq(mc) as u16).wrapping_add(4);
        let ghost m0 = self.mem.bytes();
        self.set_summ_freq(mc, summ);
        let ghost m1 = self.mem.bytes();
        self.set_freq(s, freq as u8);
        if freq > MAX_FREQ as u32 {
            self.rescale();
        }
        self.run_length = self.init_rl;
        let ghost pre = *self;
        proof {
            if plain_escape_step(*old(self)) {
                let m = self.mem.bytes();
                let fs2 = s.wrapping_add(2) as int;
                let c8 = mc.wrapping_add(8) as int;
                let c2 = mc.wrapping_add(2) as int;
                let f1 = s.wrapping_add(1) as int;
                let t = old(self).text as int;
                assert(m[fs2] == m0[fs2] && m[fs2 + 1] == m0[fs2 + 1] && m[fs2 + 2] == m0[fs2 + 2] && m[fs2 + 3] == m0[fs2 + 3]);
                assert(m[c8] == m0[c8] && m[c8 + 1] == m0[c8 + 1] && m[c8 + 2] == m0[c8 + 2] && m[c8 + 3] == m0[c8 + 3]);
                if fits(s, 1, m.len()) {
                    assert(m[s as int] == m0[s as int]);
                }
                assert(self.mem.spec_rd8(s) == old(self).mem.spec_rd8(s));
                assert(self.mem.spec_rd32(s.wrapping_add(2)) == 0);
                assert(self.mem.spec_rd32(mc.wrapping_add(8)) == 0);
                assert(first_text_step(*self));
                assert(m[c2] == m1[c2] && m[c2 + 1] == m1[c2 + 1]);
                assert(self.mem.spec_rd16(mc.wrapping_add(2)) == summ);
                assert(self.mem.spec_rd8(s.wrapping_add(1)) == freq);
            }
        }
        self.update_model();
        proof {
            if plain_escape_step(*old(self)) {
                let m = self.mem.bytes();
                let mp = pre.mem.bytes();
                let c2 = mc.wrapping_add(2) as int;
                let f1 = s.wrapping_add(1) as int;
                assert(m[c2] == mp[c2] && m[c2 + 1] == mp[c2 + 1]);
                assert(m[f1] == mp[f1]);
            }
        }
    }

    /// Updates the model after the symbol of the binary context's state at `s` was
    /// coded, and returns that symbol.
    ///
    /// The state becomes the found one, its frequency rises by one below 196, and the
    /// run of likely symbols grows by one. Where the model is at full order and the
    /// state's successor is a context, that context becomes the current one and
    /// nothing else changes.
    pub fn update_bin(&mut self, s: u32) -> (sym: u8)
        requires
            old(self).wf(),
        ensures
            model_frame(*old(self), *final(self)),
            final(self).min_context == final(self).max_context,
            sym == old(self).mem.spec_rd8(s),
            ({
                let m0 = old(self).mem.bytes();
                let f = m0[s + 1];
                let succ = old(self).mem.spec_rd32(s.wrapping_add(2));
                s + 6 <= m0.len() && old(self).order_fall == 0 && succ >= old(self).units_start ==> {
                    &&& final(self).mem.bytes() == m0.update(s + 1, (if f < 196 { f + 1 } else { f as int }) as u8)
                    &&& *final(self) == (Ppmd8 {
                        min_context: succ,
                        max_context: succ,
                        found_state: s,
                        prev_success: 1,
                        run_length: old(self).run_length.wrapping_add(1),
                        mem: final(self).mem,
                        ..*old(self)
                    })
                }
            }),
    {
        let ghost m0 = self.mem.bytes();
        let freq = self.freq(s);
        let sym = self.sym(s) as u8;
        self.found_state = s;
        self.prev_success = 1;
        self.run_length = self.run_length.wrapping_add(1);
        let add: u32 = if freq < 196 {
            1
        } else {
            0
        };
        self.set_freq(s, (freq + add) as u8);
        proof {
            if s + 6 <= m0.len() {
                let m1 = self.mem.bytes();
                assert(s.wrapping_add(1) as int == s + 1);
                assert(s.wrapping_add(2) as int == s + 2);
                assert(m1[s + 2] == m0[s + 2] && m1[s + 3] == m0[s + 3] && m1[s + 4] == m0[s + 4] && m1[s + 5] == m0[s + 5]);
                assert(self.mem.spec_rd32(s.wrapping_add(2)) == old(self).mem.spec_rd32(s.wrapping_add(2)));
            }
        }
        self.next_context();
        sym
    }

    /// Clears in `char_mask` the symbols of the state at `s` and of the states from
    /// `s2` on, two at a time, up to `s`.
    pub fn mask_symbols(&self, char_mask: &mut Vec<u8>, s: u32, s2: u32)
        requires
            old(char_mask).len() == 256,
        ensures
            final(char_mask).len() == 256,
            forall|j: int|
                0 <= j < 256 ==> #[trigger] final(char_mask)@[j] == (if masked_by(*self, s, s2, mask_rounds(s, s2), j) {
                    0
                } else {
                    old(char_mask)@[j]
                }),
    {
        let ghost start = char_mask@;
        char_mask.set(self.sym(s) as usize, 0);
        let mut p: u64 = s2 as u64;
        let ghost mut n: int = 0;
        loop
            invariant_except_break
                n >= 1 ==> p < s,
            invariant
                char_mask.len() == 256,
                p == s2 + 12 * n,
                n >= 0,
                n >= 1 ==> p - 12 < s || n == 1,
                forall|j: int|
                    0 <= j < 256 ==> #[trigger] char_mask@[j] == (if masked_by(*self, s, s2, n, j) {
                        0
                    } else {
                        start[j]
                    }),
            ensures
                char_mask.len() == 256,
                n == mask_rounds(s, s2),
                forall|j: int|
                    0 <= j < 256 ==> #[trigger] char_mask@[j] == (if masked_by(*self, s, s2, n, j) {
                        0
                    } else {
                        start[j]
                    }),
            decreases s + 12 - p,
        {
            let a = self.sym(p as u32);
            let b = self.sym((p as u32).wrapping_add(6));
            let ghost before = char_mask@;
            char_mask.set(a as usize, 0);
            char_mask.set(b as usize, 0);
            proof {
                let ghost k = n;
                assert((p as u32) == ((s2 + 12 * k) as u32));
                assert forall|j: int| 0 <= j < 256 implies #[trigger] char_mask@[j] == (if masked_by(*self, s, s2, n + 1, j) {
                    0
                } else {
                    start[j]
                }) by {
                    if masked_by(*self, s, s2, n + 1, j) {
                        if j != a && j != b && j != self.mem.spec_rd8(s) {
                            let w = choose|w: int|
                                0 <= w < n + 1 && (j == self.mem.spec_rd8(#[trigger] ((s2 + 12 * w) as u32))
                                    || j == self.mem.spec_rd8(((s2 + 12 * w) as u32).wrapping_add(6)));
                            if w == n {
                                assert(false);
                            }
                            assert(masked_by(*self, s, s2, n, j));
                        }
                    } else {
                        assert(j != a);
                        assert(j != b);
                        assert(!masked_by(*self, s, s2, n, j));
                    }
                }
                n = n + 1;
            }
            p = p + 12;
            if p >= s as u64 {
                proof {
                    if s2 < s {
                        assert(s2 + 12 * (n - 1) < s);
                        assert((s - s2 + 11) / 12 == n);
                    }
                }
                break;
            }
        }
    }
}

} // verus!

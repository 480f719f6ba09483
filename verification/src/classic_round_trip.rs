//! The round trip of the 7z range coder of PPMd7, whose encoder holds back a byte and
//! a run of 0xFF bytes so that a later carry can still reach them: a decoder that
//! reads what the encoder wrote, and follows the encoder's steps, finds its code in
//! the part of the range that the encoder chose at every step, and never runs out of
//! input.
//!
//! The encoder's state stands for one number: the bytes written, the held-back byte,
//! the pending 0xFF bytes and the 33-bit `low`, read together. Moving a byte out
//! multiplies that number by 256 and leaves it otherwise unchanged, carries included.

use vstd::prelude::*;

use vstd::arithmetic::div_mod::{lemma_add_mod_noop, lemma_mul_mod_noop_left};

use crate::range_coding::{
    be32, classic_needed, classic_normalized, classic_shifted, feed, pow256, shift_in, shift_low_n,
    shift_low_spec, RangeDecoder, RangeEncoder, K_TOP_VALUE,
};

verus! {

/// One step of the 7z coder: the range narrows to its part `[offset, offset + width)`,
/// and the coder then moves bytes out (the decoder moves them in) while the range is
/// below `K_TOP_VALUE`, at most `max_shifts` of them (0, 1 or 2).
pub struct ClassicStep {
    pub offset: u32,
    pub width: u32,
    pub max_shifts: u8,
}

/// The bytes of `s` read as one big-endian number.
pub open spec fn bval(s: Seq<u8>) -> int
    decreases s.len(),
{
    if s.len() == 0 {
        0
    } else {
        bval(s.drop_last()) * 256 + s.last()
    }
}

/// `k` bytes 0xFF.
pub open spec fn ff_run(k: nat) -> Seq<u8> {
    Seq::new(k, |i: int| 0xFFu8)
}

/// The number the encoder's state stands for: the bytes written, the held-back byte
/// and the pending 0xFF bytes, followed by the 32 bits below them, to which `low`
/// (with its carry bit) is added.
pub open spec fn classic_value(written: Seq<u8>, cache: u8, cache_size: u64, low: u64) -> int {
    bval(written + seq![cache] + ff_run((cache_size - 1) as nat)) * 0x1_0000_0000 + low
}

/// 256 to a power is positive, and powers add.
proof fn lemma_pow256(a: nat, b: nat)
    ensures
        pow256(a) >= 1,
        pow256(a + b) == pow256(a) * pow256(b),
    decreases a,
{
    if a > 0 {
        lemma_pow256((a - 1) as nat, b);
        assert(pow256(a + b) == 256 * pow256((a - 1 + b) as nat));
        assert(pow256(a + b) == pow256(a) * pow256(b)) by (nonlinear_arith)
            requires
                pow256(a + b) == 256 * pow256((a - 1 + b) as nat),
                pow256((a - 1 + b) as nat) == pow256((a - 1) as nat) * pow256(b),
                pow256(a) == 256 * pow256((a - 1) as nat),
        ;
    }
}

/// The number of two byte strings put together.
proof fn lemma_bval_concat(a: Seq<u8>, b: Seq<u8>)
    ensures
        bval(a + b) == bval(a) * pow256(b.len()) + bval(b),
    decreases b.len(),
{
    if b.len() == 0 {
        assert(a + b =~= a);
    } else {
        let b1 = b.drop_last();
        assert((a + b).drop_last() =~= a + b1);
        assert((a + b).last() == b.last());
        lemma_bval_concat(a, b1);
        assert(pow256(b.len()) == 256 * pow256(b1.len()));
        assert(bval(a + b) == bval(a) * pow256(b.len()) + bval(b)) by (nonlinear_arith)
            requires
                bval(a + b) == bval(a + b1) * 256 + b.last(),
                bval(a + b1) == bval(a) * pow256(b1.len()) + bval(b1),
                bval(b) == bval(b1) * 256 + b.last(),
                pow256(b.len()) == 256 * pow256(b1.len()),
        ;
    }
}

/// One byte reads as itself.
proof fn lemma_bval_one(b: u8)
    ensures
        bval(seq![b]) == b,
{
    let s = seq![b];
    assert(s.len() == 1);
    assert(s.drop_last() =~= Seq::<u8>::empty());
    assert(bval(Seq::<u8>::empty()) == 0);
    assert(s.last() == b);
}

/// A run of 0xFF bytes is one below a power of 256; a run of zeros is zero.
proof fn lemma_bval_runs(k: nat)
    ensures
        bval(ff_run(k)) == pow256(k) - 1,
        bval(Seq::new(k, |i: int| 0u8)) == 0,
    decreases k,
{
    if k > 0 {
        lemma_bval_runs((k - 1) as nat);
        assert(ff_run(k).drop_last() =~= ff_run((k - 1) as nat));
        assert(Seq::new(k, |i: int| 0u8).drop_last() =~= Seq::new((k - 1) as nat, |i: int| 0u8));
    }
}

/// A byte string is nonnegative and below 256 to its length.
proof fn lemma_bval_bound(s: Seq<u8>)
    ensures
        0 <= bval(s) < pow256(s.len()),
    decreases s.len(),
{
    if s.len() > 0 {
        lemma_bval_bound(s.drop_last());
        assert(bval(s) < pow256(s.len())) by (nonlinear_arith)
            requires
                bval(s) == bval(s.drop_last()) * 256 + s.last(),
                bval(s.drop_last()) < pow256(s.drop_last().len()),
                pow256(s.len()) == 256 * pow256(s.drop_last().len()),
                s.last() < 256,
        ;
    }
}

/// Moving a byte out multiplies the encoder's number by 256: written bytes, held-back
/// byte, pending bytes and `low` still read as the same number, one byte longer.
proof fn lemma_shift_value(written: Seq<u8>, cache: u8, cache_size: u64, low: u64)
    requires
        1 <= cache_size < u64::MAX,
        low < 0x2_0000_0000,
        low >= 0x1_0000_0000 ==> cache < 0xFF,
    ensures
        ({
            let (l2, c2, s2, out) = shift_low_spec(low, cache, cache_size);
            &&& classic_value(written + out, c2, s2, l2) == 256 * classic_value(written, cache, cache_size, low)
            &&& (written + out).len() + s2 == written.len() + cache_size + 1
            &&& s2 >= 1
            &&& l2 < 0x1_0000_0000
            &&& l2 as int == (low as int % 0x100_0000) * 256
        }),
{
    let (l2, c2, s2, out) = shift_low_spec(low, cache, cache_size);
    let k = (cache_size - 1) as nat;
    let x = written + seq![cache] + ff_run(k);
    let carry = (low as int / 0x1_0000_0000) % 256;
    assert(carry == 0 || carry == 1);
    let top = (low as int % 0x1_0000_0000) / 0x100_0000;
    assert(low == carry * 0x1_0000_0000 + top * 0x100_0000 + low as int % 0x100_0000);
    lemma_bval_concat(written + seq![cache], ff_run(k));
    lemma_bval_concat(written, seq![cache]);
    lemma_bval_runs(k);
    lemma_pow256(k, 1);
    assert(pow256(1) == 256) by {
        assert(pow256(0) == 1);
    }
    lemma_bval_one(cache);
    if low < 0xFF00_0000 || low >= 0x1_0000_0000 {
        let pend = Seq::new(k, |i: int| ((0xFF + carry) % 256) as u8);
        assert(out == seq![((cache as int + carry) % 256) as u8] + pend);
        let y = written + out;
        let cc = ((cache as int + carry) % 256) as u8;
        assert(y =~= (written + seq![cc]) + pend);
        lemma_bval_concat(written + seq![cc], pend);
        lemma_bval_concat(written, seq![cc]);
        lemma_bval_one(cc);
        if carry == 0 {
            assert(pend =~= ff_run(k));
            assert(cc == cache);
        } else {
            assert(pend =~= Seq::new(k, |i: int| 0u8));
            assert(cc == cache + 1);
        }
        assert(bval(y) == bval(x) + carry) by (nonlinear_arith)
            requires
                bval(x) == (bval(written) * 256 + cache) * pow256(k) + pow256(k) - 1,
                bval(y) == (bval(written) * 256 + cc) * pow256(k) + bval(pend),
                carry == 0 ==> cc == cache && bval(pend) == pow256(k) - 1,
                carry == 1 ==> cc == cache + 1 && bval(pend) == 0,
                carry == 0 || carry == 1,
        ;
        assert(s2 == 1);
        assert(ff_run(0) =~= Seq::<u8>::empty());
        assert(y + seq![c2] + ff_run(0) =~= y + seq![c2]);
        lemma_bval_concat(y, seq![c2]);
        lemma_bval_one(c2);
        assert(c2 == top);
        assert(classic_value(y, c2, s2, l2) == (bval(y) * 256 + c2) * 0x1_0000_0000 + l2);
        assert(classic_value(y, c2, s2, l2) == 256 * classic_value(written, cache, cache_size, low)) by (nonlinear_arith)
            requires
                classic_value(y, c2, s2, l2) == (bval(y) * 256 + top) * 0x1_0000_0000 + l2,
                classic_value(written, cache, cache_size, low) == bval(x) * 0x1_0000_0000 + low,
                bval(y) == bval(x) + carry,
                low == carry * 0x1_0000_0000 + top * 0x100_0000 + low as int % 0x100_0000,
                l2 as int == (low as int % 0x100_0000) * 256,
        ;
    } else {
        assert(out =~= Seq::<u8>::empty());
        assert(written + out =~= written);
        assert(carry == 0);
        assert(top == 0xFF);
        let k2 = (s2 - 1) as nat;
        assert(k2 == k + 1);
        assert(ff_run(k2) =~= ff_run(k) + seq![0xFFu8]);
        assert(written + seq![cache] + ff_run(k2) =~= x + seq![0xFFu8]);
        lemma_bval_concat(x, seq![0xFFu8]);
        lemma_bval_one(0xFFu8);
        assert(classic_value(written, c2, s2, l2) == 256 * classic_value(written, cache, cache_size, low)) by (nonlinear_arith)
            requires
                classic_value(written, c2, s2, l2) == (bval(x) * 256 + 0xFF) * 0x1_0000_0000 + l2,
                classic_value(written, cache, cache_size, low) == bval(x) * 0x1_0000_0000 + low,
                low == 0xFF * 0x100_0000 + low as int % 0x100_0000,
                l2 as int == (low as int % 0x100_0000) * 256,
        ;
    }
}

/// The encoder's state is consistent: a byte is held back (and a run of pending bytes
/// too long to count does not arise), `low` and `range` stay below 2^33, the range is
/// not empty, and where the held-back byte is 0xFF no carry can reach it any more.
pub open spec fn classic_inv(low: u64, cache: u8, cache_size: u64, range: u32) -> bool {
    &&& 1 <= cache_size < u64::MAX - 8
    &&& low + range < 0x2_0000_0000
    &&& range >= 1
    &&& cache == 0xFF ==> low + range <= 0x1_0000_0000
}

/// One byte moved out with a range below `K_TOP_VALUE` keeps the encoder consistent,
/// with the range grown by a byte, and multiplies its number by 256.
proof fn lemma_shift_step(written: Seq<u8>, low: u64, cache: u8, cache_size: u64, range: u32)
    requires
        classic_inv(low, cache, cache_size, range),
        range < K_TOP_VALUE,
        cache_size < u64::MAX - 9,
    ensures
        ({
            let (l2, c2, s2, out) = shift_low_spec(low, cache, cache_size);
            &&& classic_inv(l2, c2, s2, (range * 256) as u32)
            &&& classic_value(written + out, c2, s2, l2) == 256 * classic_value(written, cache, cache_size, low)
            &&& (written + out).len() + s2 == written.len() + cache_size + 1
            &&& s2 <= cache_size + 1
        }),
{
    lemma_shift_value(written, cache, cache_size, low);
    let (l2, c2, s2, out) = shift_low_spec(low, cache, cache_size);
    let m = low as int % 0x100_0000;
    assert(l2 as int == m * 256);
    assert(0 <= m < 0x100_0000);
    if low < 0xFF00_0000 || low >= 0x1_0000_0000 {
        if c2 == 0xFF {
            assert(((low as int % 0x1_0000_0000) / 0x100_0000) == 0xFF);
            assert(low >= 0x1_FF00_0000);
            assert(m == low - 0x1_FF00_0000);
        }
    } else {
        assert(m == low - 0xFF00_0000);
    }
}

/// The bytes a step moves out: none, one or two, while the range is below
/// `K_TOP_VALUE`.
proof fn lemma_shift_steps(written: Seq<u8>, low: u64, cache: u8, cache_size: u64, range: u32, k: nat)
    requires
        classic_inv(low, cache, cache_size, range),
        cache_size < u64::MAX - 10,
        k <= 2,
        k >= 1 ==> range < K_TOP_VALUE,
        k == 2 ==> range as int * 256 < K_TOP_VALUE,
    ensures
        ({
            let (l2, c2, s2, out) = shift_low_n(low, cache, cache_size, k);
            &&& classic_inv(l2, c2, s2, (range * pow256(k)) as u32)
            &&& classic_value(written + out, c2, s2, l2) == pow256(k) * classic_value(written, cache, cache_size, low)
            &&& (written + out).len() + s2 == written.len() + cache_size + k
            &&& s2 <= cache_size + k
        }),
{
    assert(pow256(0) == 1);
    assert(pow256(1) == 256);
    assert(pow256(2) == 65536);
    if k == 0 {
        assert(written + Seq::<u8>::empty() =~= written);
    } else {
        lemma_shift_step(written, low, cache, cache_size, range);
        let (l1, c1, s1, o1) = shift_low_spec(low, cache, cache_size);
        let w1 = written + o1;
        if k == 1 {
            assert(shift_low_n(l1, c1, s1, 0) == (l1, c1, s1, Seq::<u8>::empty()));
            assert(o1 + Seq::<u8>::empty() =~= o1);
        } else {
            lemma_shift_step(w1, l1, c1, s1, (range * 256) as u32);
            let (l2, c2, s2, o2) = shift_low_spec(l1, c1, s1);
            assert(shift_low_n(l2, c2, s2, 0) == (l2, c2, s2, Seq::<u8>::empty()));
            assert(shift_low_n(l1, c1, s1, 1) == (l2, c2, s2, o2 + Seq::<u8>::empty()));
            assert(o2 + Seq::<u8>::empty() =~= o2);
            assert(written + (o1 + o2) =~= w1 + o2);
        }
    }
}

/// Five shifts, one after the other.
proof fn lemma_shift_low_5(l0: u64, c0: u8, s0: u64)
    ensures
        ({
            let (l1, c1, s1, o1) = shift_low_spec(l0, c0, s0);
            let (l2, c2, s2, o2) = shift_low_spec(l1, c1, s1);
            let (l3, c3, s3, o3) = shift_low_spec(l2, c2, s2);
            let (l4, c4, s4, o4) = shift_low_spec(l3, c3, s3);
            let (l5, c5, s5, o5) = shift_low_spec(l4, c4, s4);
            shift_low_n(l0, c0, s0, 5) == (l5, c5, s5, o1 + (o2 + (o3 + (o4 + (o5 + Seq::<u8>::empty())))))
        }),
{
    let (l1, c1, s1, o1) = shift_low_spec(l0, c0, s0);
    let (l2, c2, s2, o2) = shift_low_spec(l1, c1, s1);
    let (l3, c3, s3, o3) = shift_low_spec(l2, c2, s2);
    let (l4, c4, s4, o4) = shift_low_spec(l3, c3, s3);
    let (l5, c5, s5, o5) = shift_low_spec(l4, c4, s4);
    assert(shift_low_n(l5, c5, s5, 0) == (l5, c5, s5, Seq::<u8>::empty()));
    assert(shift_low_n(l4, c4, s4, 1) == (l5, c5, s5, o5 + Seq::<u8>::empty()));
    assert(shift_low_n(l3, c3, s3, 2) == (l5, c5, s5, o4 + (o5 + Seq::<u8>::empty())));
    assert(shift_low_n(l2, c2, s2, 3) == (l5, c5, s5, o3 + (o4 + (o5 + Seq::<u8>::empty()))));
    assert(shift_low_n(l1, c1, s1, 4) == (l5, c5, s5, o2 + (o3 + (o4 + (o5 + Seq::<u8>::empty())))));
}

/// What `flush` writes after the bytes written so far reads as the encoder's number:
/// its five shifts move out the held-back and pending bytes and the four bytes of
/// `low`.
#[verifier::rlimit(30)]
proof fn lemma_flush_value(written: Seq<u8>, low: u64, cache: u8, cache_size: u64, range: u32)
    requires
        classic_inv(low, cache, cache_size, range),
    ensures
        ({
            let f = written + shift_low_n(low, cache, cache_size, 5).3;
            &&& f.len() == written.len() + cache_size + 4
            &&& bval(f) == classic_value(written, cache, cache_size, low)
        }),
{
    let v0 = classic_value(written, cache, cache_size, low);
    lemma_shift_low_5(low, cache, cache_size);
    let (l1, c1, s1, o1) = shift_low_spec(low, cache, cache_size);
    lemma_shift_value(written, cache, cache_size, low);
    let w1 = written + o1;
    let (l2, c2, s2, o2) = shift_low_spec(l1, c1, s1);
    lemma_shift_value(w1, c1, s1, l1);
    let w2 = w1 + o2;
    let (l3, c3, s3, o3) = shift_low_spec(l2, c2, s2);
    lemma_shift_value(w2, c2, s2, l2);
    let w3 = w2 + o3;
    let (l4, c4, s4, o4) = shift_low_spec(l3, c3, s3);
    lemma_shift_value(w3, c3, s3, l3);
    let w4 = w3 + o4;
    assert(l4 == 0) by (bit_vector)
        requires
            l1 == (low % 0x100_0000) * 256,
            l2 == (l1 % 0x100_0000) * 256,
            l3 == (l2 % 0x100_0000) * 256,
            l4 == (l3 % 0x100_0000) * 256,
    ;
    let (l5, c5, s5, o5) = shift_low_spec(l4, c4, s4);
    lemma_shift_value(w4, c4, s4, l4);
    let f = w4 + o5;
    assert(l5 == 0 && c5 == 0 && s5 == 1);
    assert(written + (o1 + (o2 + (o3 + (o4 + (o5 + Seq::<u8>::empty()))))) =~= f);
    assert(ff_run(0) =~= Seq::<u8>::empty());
    assert(f + seq![0u8] + ff_run(0) =~= f + seq![0u8]);
    lemma_bval_concat(f, seq![0u8]);
    lemma_bval_one(0u8);
    assert(pow256(1) == 256) by {
        assert(pow256(0) == 1);
    }
    assert(classic_value(f, c5, s5, l5) == bval(f) * 256 * 0x1_0000_0000);
    assert(bval(f) == v0) by (nonlinear_arith)
        requires
            classic_value(f, c5, s5, l5) == bval(f) * 256 * 0x1_0000_0000,
            classic_value(f, c5, s5, l5) == 256 * (256 * (256 * (256 * (256 * v0)))),
    ;
}

/// The encoder's state after one step from `st`, a tuple of `low`, held-back byte,
/// count of held-back bytes, range, and the bytes written.
pub open spec fn classic_step(st: (u64, u8, u64, u32, Seq<u8>), step: ClassicStep) -> (u64, u8, u64, u32, Seq<u8>) {
    let k = classic_needed(step.width, step.max_shifts as nat);
    let (l2, c2, s2, out) = shift_low_n((st.0 + step.offset) as u64, st.1, st.2, k);
    (l2, c2, s2, (step.width * pow256(k)) as u32, st.4 + out)
}

/// The encoder's state after the steps from `st`.
pub open spec fn classic_run(st: (u64, u8, u64, u32, Seq<u8>), steps: Seq<ClassicStep>) -> (u64, u8, u64, u32, Seq<u8>)
    decreases steps.len(),
{
    if steps.len() == 0 {
        st
    } else {
        classic_run(classic_step(st, steps[0]), steps.drop_first())
    }
}

/// Each step takes a nonempty part of the range it starts from, moves out at most two
/// bytes, and the run is not so long that the count of held-back bytes could pass
/// `u64::MAX`.
pub open spec fn classic_run_valid(st: (u64, u8, u64, u32, Seq<u8>), steps: Seq<ClassicStep>) -> bool
    decreases steps.len(),
{
    &&& st.2 < u64::MAX - 16 - 2 * steps.len()
    &&& steps.len() > 0 ==> {
        &&& steps[0].width > 0
        &&& steps[0].offset + steps[0].width <= st.3
        &&& steps[0].max_shifts <= 2
        &&& classic_run_valid(classic_step(st, steps[0]), steps.drop_first())
    }
}

/// The encoder's start: low zero, a zero byte held back, the full range, nothing
/// written.
pub open spec fn classic_start() -> (u64, u8, u64, u32, Seq<u8>) {
    (0, 0, 1, 0xFFFF_FFFF, Seq::<u8>::empty())
}

/// Everything the encoder writes for the steps from `st`, flush included.
pub open spec fn classic_coded_from(st: (u64, u8, u64, u32, Seq<u8>), steps: Seq<ClassicStep>) -> Seq<u8> {
    let f = classic_run(st, steps);
    f.4 + shift_low_n(f.0, f.1, f.2, 5).3
}

/// Everything the encoder writes for the steps from its start, flush included.
pub open spec fn classic_coded(steps: Seq<ClassicStep>) -> Seq<u8> {
    classic_coded_from(classic_start(), steps)
}

/// The encoder's number at state `st`.
pub open spec fn state_value(st: (u64, u8, u64, u32, Seq<u8>)) -> int {
    classic_value(st.4, st.1, st.2, st.0)
}

/// How many bytes the encoder's number has above its low 32 bits: those written and
/// those held back.
pub open spec fn state_len(st: (u64, u8, u64, u32, Seq<u8>)) -> int {
    st.4.len() + st.2
}

/// A step keeps the encoder consistent, multiplies its number (moved by the offset) by
/// 256 for each byte moved out, and grows the range and length alike.
proof fn lemma_classic_step(st: (u64, u8, u64, u32, Seq<u8>), step: ClassicStep)
    requires
        classic_inv(st.0, st.1, st.2, st.3),
        st.2 < u64::MAX - 16,
        step.width > 0,
        step.offset + step.width <= st.3,
        step.max_shifts <= 2,
    ensures
        ({
            let k = classic_needed(step.width, step.max_shifts as nat);
            let st2 = classic_step(st, step);
            &&& k <= 2
            &&& classic_inv(st2.0, st2.1, st2.2, st2.3)
            &&& st2.3 as int == step.width * pow256(k)
            &&& state_value(st2) == pow256(k) * (state_value(st) + step.offset)
            &&& state_len(st2) == state_len(st) + k
            &&& st2.2 <= st.2 + k
            &&& st.4.is_prefix_of(st2.4)
        }),
{
    let k = classic_needed(step.width, step.max_shifts as nat);
    let l1 = (st.0 + step.offset) as u64;
    assert(classic_inv(l1, st.1, st.2, step.width));
    assert(pow256(0) == 1);
    assert(pow256(1) == 256);
    assert(pow256(2) == 65536);
    lemma_shift_steps(st.4, l1, st.1, st.2, step.width, k);
    assert(classic_value(st.4, st.1, st.2, l1) == state_value(st) + step.offset);
}

/// Splitting the number read from the first `a + k` bytes: the first `a` bytes, moved
/// up by `k` bytes, and the `k` bytes after them.
proof fn lemma_bval_take(f: Seq<u8>, a: int, k: nat)
    requires
        0 <= a,
        a + k <= f.len(),
    ensures
        bval(f.take(a + k)) == bval(f.take(a)) * pow256(k) + bval(f.subrange(a, a + k)),
        0 <= bval(f.subrange(a, a + k)) < pow256(k),
{
    assert(f.take(a + k) =~= f.take(a) + f.subrange(a, a + k));
    lemma_bval_concat(f.take(a), f.subrange(a, a + k));
    lemma_bval_bound(f.subrange(a, a + k));
}

/// The number the encoder writes, read up to the end of the encoder's number at
/// state `st`, lies within the range the encoder has there, and within the part the
/// first step of the run takes.
proof fn lemma_classic_run_value(st: (u64, u8, u64, u32, Seq<u8>), steps: Seq<ClassicStep>)
    requires
        classic_inv(st.0, st.1, st.2, st.3),
        classic_run_valid(st, steps),
    ensures
        ({
            let f = classic_coded_from(st, steps);
            let n = state_len(st);
            let g = bval(f.take(n + 4));
            &&& f.len() >= n + 4
            &&& state_value(st) <= g < state_value(st) + st.3
            &&& steps.len() > 0 ==> state_value(st) + steps[0].offset <= g < state_value(st) + steps[0].offset
                + steps[0].width
        }),
    decreases steps.len(),
{
    let f = classic_coded_from(st, steps);
    let n = state_len(st);
    if steps.len() == 0 {
        lemma_flush_value(st.4, st.0, st.1, st.2, st.3);
        assert(f.take(n + 4) =~= f);
    } else {
        let step = steps[0];
        let st2 = classic_step(st, step);
        let tail = steps.drop_first();
        lemma_classic_step(st, step);
        lemma_classic_run_value(st2, tail);
        assert(classic_coded_from(st2, tail) == f);
        let k = classic_needed(step.width, step.max_shifts as nat);
        let p = pow256(k);
        lemma_pow256(k, 0);
        lemma_bval_take(f, n + 4, k);
        let g1 = bval(f.take(n + 4));
        let x = bval(f.subrange(n + 4, n + 4 + k));
        let v1 = state_value(st) + step.offset;
        assert(v1 <= g1 < v1 + step.width) by (nonlinear_arith)
            requires
                p >= 1,
                0 <= x < p,
                p * v1 <= g1 * p + x,
                g1 * p + x < p * v1 + step.width * p,
        {
            if g1 < v1 {
                assert(g1 * p + x < v1 * p);
            }
            if g1 >= v1 + step.width {
                assert(g1 * p >= (v1 + step.width) * p);
            }
        }
    }
}

/// Bytes fed into a 32-bit code take the code up by their count of bytes and add
/// their number, modulo 2^32.
proof fn lemma_feed_bval(x: u32, s: Seq<u8>)
    ensures
        feed(x, s) as int == (x * pow256(s.len()) + bval(s)) % 0x1_0000_0000,
    decreases s.len(),
{
    let m = 0x1_0000_0000int;
    if s.len() == 0 {
        assert(pow256(0) == 1);
    } else {
        let s1 = s.drop_last();
        let b = s.last();
        lemma_feed_bval(x, s1);
        let a = x * pow256(s1.len()) + bval(s1);
        assert(pow256(s.len()) == 256 * pow256(s1.len()));
        assert(x * pow256(s.len()) + bval(s) == a * 256 + b) by (nonlinear_arith)
            requires
                pow256(s.len()) == 256 * pow256(s1.len()),
                bval(s) == bval(s1) * 256 + b,
                a == x * pow256(s1.len()) + bval(s1),
        ;
        lemma_mul_mod_noop_left(a, 256, m);
        lemma_add_mod_noop((a % m) * 256, b as int, m);
        lemma_add_mod_noop(a * 256, b as int, m);
        assert(feed(x, s) == shift_in(feed(x, s1), b));
    }
}

/// Four bytes read as a number are their big-endian value.
proof fn lemma_bval_four(s: Seq<u8>)
    requires
        s.len() == 4,
    ensures
        bval(s) == be32(s, 0),
{
    let s3 = s.drop_last();
    let s2 = s3.drop_last();
    let s1 = s2.drop_last();
    let s0 = s1.drop_last();
    assert(s0.len() == 0);
    assert(bval(s0) == 0);
    assert(bval(s1) == s[0]);
    assert(bval(s2) == s[0] * 256 + s[1]);
    assert(bval(s3) == (s[0] * 256 + s[1]) * 256 + s[2]);
}

/// A run splits at any step: the first `k` steps, then the rest from where they end;
/// along a valid run the encoder stays consistent.
proof fn lemma_classic_run_split(st: (u64, u8, u64, u32, Seq<u8>), steps: Seq<ClassicStep>, k: int)
    requires
        0 <= k <= steps.len(),
        classic_inv(st.0, st.1, st.2, st.3),
        classic_run_valid(st, steps),
    ensures
        ({
            let sk = classic_run(st, steps.take(k));
            &&& classic_run(st, steps) == classic_run(sk, steps.skip(k))
            &&& classic_coded_from(st, steps) == classic_coded_from(sk, steps.skip(k))
            &&& classic_run_valid(sk, steps.skip(k))
            &&& classic_inv(sk.0, sk.1, sk.2, sk.3)
        }),
    decreases k,
{
    if k == 0 {
        assert(steps.take(0) =~= Seq::<ClassicStep>::empty());
        assert(steps.skip(0) =~= steps);
    } else {
        let step = steps[0];
        let st2 = classic_step(st, step);
        let tail = steps.drop_first();
        lemma_classic_step(st, step);
        lemma_classic_run_split(st2, tail, k - 1);
        assert(steps.take(k).drop_first() =~= tail.take(k - 1));
        assert(steps.take(k)[0] == step);
        assert(steps.skip(k) =~= tail.skip(k - 1));
    }
}

/// A run with one more step ends where that step takes the end of the run.
proof fn lemma_classic_run_push(st: (u64, u8, u64, u32, Seq<u8>), a: Seq<ClassicStep>, step: ClassicStep)
    ensures
        classic_run(st, a.push(step)) == classic_step(classic_run(st, a), step),
    decreases a.len(),
{
    if a.len() == 0 {
        assert(a.push(step) =~= seq![step]);
        assert(seq![step].drop_first() =~= Seq::<ClassicStep>::empty());
        assert(seq![step][0] == step);
        assert(classic_run(st, a) == st);
        assert(classic_run(classic_step(st, step), seq![step].drop_first()) == classic_step(st, step));
    } else {
        assert(a.push(step).drop_first() =~= a.drop_first().push(step));
        assert(a.push(step)[0] == a[0]);
        lemma_classic_run_push(classic_step(st, a[0]), a.drop_first(), step);
    }
}

/// The decoder is in step with the encoder before step `k`: it reads the encoder's
/// whole output, has read the bytes of the encoder's number at that point and four
/// more, has the encoder's range, and its code is the number read so far less the
/// encoder's number.
pub open spec fn classic_in_step(d: RangeDecoder, steps: Seq<ClassicStep>, k: int) -> bool {
    let st = classic_run(classic_start(), steps.take(k));
    let f = classic_coded(steps);
    let n = state_len(st);
    &&& d.reader.data() == f
    &&& d.reader.pos() == n + 4
    &&& d.range == st.3
    &&& d.code == bval(f.take(n + 4)) - state_value(st)
}

/// The decoder `d` after it takes the part of step `st`: `offset` leaves its code and
/// its range narrows to `width`.
pub open spec fn classic_narrowed(d: RangeDecoder, st: ClassicStep) -> RangeDecoder {
    RangeDecoder { code: (d.code - st.offset) as u32, range: st.width, reader: d.reader }
}

/// The encoder `e` after it takes the part of step `st`: `offset` is added to its low,
/// and its range narrows to `width`.
pub open spec fn classic_encoder_narrowed(e: RangeEncoder, st: ClassicStep) -> RangeEncoder {
    RangeEncoder { low: (e.low + st.offset) as u64, range: st.width, ..e }
}

/// The encoder `e` is in the run's state `st`, having written `st.4` after the bytes
/// `w0` it started with.
pub open spec fn classic_encoder_at(e: RangeEncoder, st: (u64, u8, u64, u32, Seq<u8>), w0: Seq<u8>) -> bool {
    &&& e.low == st.0
    &&& e.cache == st.1
    &&& e.cache_size == st.2
    &&& e.range == st.3
    &&& e.writer.data() == w0 + st.4
}

/// An encoder in the run's state before step `k` that takes the part of step `k` and
/// moves out the bytes the step needs is in the run's state before step `k + 1`.
pub proof fn law_classic_encoder_follows(steps: Seq<ClassicStep>, k: int, w0: Seq<u8>, e: RangeEncoder, e2: RangeEncoder)
    requires
        0 <= k < steps.len(),
        classic_encoder_at(e, classic_run(classic_start(), steps.take(k)), w0),
        classic_shifted(
            classic_encoder_narrowed(e, steps[k]),
            e2,
            (steps[k].width * pow256(classic_needed(steps[k].width, steps[k].max_shifts as nat))) as u32,
            classic_needed(steps[k].width, steps[k].max_shifts as nat),
        ),
    ensures
        classic_encoder_at(e2, classic_run(classic_start(), steps.take(k + 1)), w0),
{
    let st = classic_start();
    assert(steps.take(k + 1) =~= steps.take(k).push(steps[k]));
    lemma_classic_run_push(st, steps.take(k), steps[k]);
    let sk = classic_run(st, steps.take(k));
    let kk = classic_needed(steps[k].width, steps[k].max_shifts as nat);
    let out = shift_low_n((sk.0 + steps[k].offset) as u64, sk.1, sk.2, kk).3;
    assert(w0 + sk.4 + out =~= w0 + (sk.4 + out));
}

/// An encoder that has gone through all the steps of a run and then flushes (five
/// shifts) has written, after the bytes `w0` it started with, exactly what
/// `classic_coded` gives for the run.
pub proof fn law_classic_encoder_finishes(steps: Seq<ClassicStep>, w0: Seq<u8>, e: RangeEncoder, e2: RangeEncoder)
    requires
        classic_encoder_at(e, classic_run(classic_start(), steps), w0),
        classic_shifted(e, e2, e.range, 5),
    ensures
        e2.writer.data() == w0 + classic_coded(steps),
{
    let f = classic_run(classic_start(), steps);
    assert(w0 + f.4 + shift_low_n(f.0, f.1, f.2, 5).3 =~= w0 + classic_coded(steps));
}

/// The start of the 7z coder's round trip. The encoder's output for a valid run begins
/// with a zero byte and four bytes of code that are not all ones, so that the
/// decoder's start accepts it; a decoder started on it (with the code from those four
/// bytes, the full range and five bytes read) is in step with the encoder before its
/// first step.
pub proof fn law_classic_decoder_starts(steps: Seq<ClassicStep>, d: RangeDecoder)
    requires
        classic_run_valid(classic_start(), steps),
        d.reader.data() == classic_coded(steps),
        d.reader.pos() == 5,
        d.range == 0xFFFF_FFFF,
        d.code == be32(classic_coded(steps), 1),
    ensures
        classic_coded(steps).len() >= 5,
        classic_coded(steps)[0] == 0,
        be32(classic_coded(steps), 1) != 0xFFFF_FFFF,
        classic_in_step(d, steps, 0),
{
    let st = classic_start();
    let f = classic_coded(steps);
    lemma_classic_run_value(st, steps);
    assert(state_len(st) == 1);
    assert(ff_run(0) =~= Seq::<u8>::empty());
    assert(Seq::<u8>::empty() + seq![0u8] + ff_run(0) =~= seq![0u8]);
    lemma_bval_one(0u8);
    assert(state_value(st) == 0);
    lemma_bval_take(f, 1, 4);
    assert(f.take(1) =~= seq![f[0]]);
    lemma_bval_one(f[0]);
    lemma_bval_four(f.subrange(1, 5));
    assert(be32(f.subrange(1, 5), 0) == be32(f, 1));
    assert(pow256(4) == 0x1_0000_0000) by {
        assert(pow256(0) == 1);
        assert(pow256(1) == 256);
        assert(pow256(2) == 0x1_0000);
        assert(pow256(3) == 0x100_0000);
    }
    assert(steps.take(0) =~= Seq::<ClassicStep>::empty());
}

/// The round trip of the 7z coder. A decoder in step with the encoder before step `k`
/// of a valid run has its code within the part that the encoder takes at step `k`:
/// the decoder's threshold and bit decisions pick the symbol the encoder coded.
pub proof fn law_classic_round_trip(steps: Seq<ClassicStep>, k: int, d: RangeDecoder)
    requires
        classic_run_valid(classic_start(), steps),
        0 <= k < steps.len(),
        classic_in_step(d, steps, k),
    ensures
        steps[k].offset <= d.code < steps[k].offset as int + steps[k].width as int,
{
    let st = classic_start();
    lemma_classic_run_split(st, steps, k);
    let sk = classic_run(st, steps.take(k));
    lemma_classic_run_value(sk, steps.skip(k));
    assert(steps.skip(k)[0] == steps[k]);
}

/// A decoder in step with the encoder before step `k` that takes the part of step `k`
/// and then moves in the bytes the step needs finds them all in the encoder's output,
/// and is in step with the encoder before step `k + 1`.
pub proof fn law_classic_decoder_follows(
    steps: Seq<ClassicStep>,
    k: int,
    d: RangeDecoder,
    d2: RangeDecoder,
    r: Result<(), crate::error::IoError>,
)
    requires
        classic_run_valid(classic_start(), steps),
        0 <= k < steps.len(),
        classic_in_step(d, steps, k),
        classic_normalized(
            classic_narrowed(d, steps[k]),
            d2,
            classic_needed(steps[k].width, steps[k].max_shifts as nat),
            r,
        ),
    ensures
        r is Ok,
        classic_in_step(d2, steps, k + 1),
{
    let st = classic_start();
    let step = steps[k];
    law_classic_round_trip(steps, k, d);
    lemma_classic_run_split(st, steps, k);
    let sk = classic_run(st, steps.take(k));
    let rest_steps = steps.skip(k);
    assert(rest_steps[0] == step);
    lemma_classic_run_value(sk, rest_steps);
    lemma_classic_step(sk, step);
    let s2 = classic_step(sk, step);
    lemma_classic_run_value(s2, rest_steps.drop_first());
    assert(classic_run(sk, rest_steps) == classic_run(s2, rest_steps.drop_first()));
    assert(steps.take(k + 1) =~= steps.take(k).push(step));
    lemma_classic_run_push(st, steps.take(k), step);
    assert(classic_run(st, steps.take(k + 1)) == s2);
    let f = classic_coded(steps);
    let n = state_len(sk);
    let kk = classic_needed(step.width, step.max_shifts as nat);
    let mid = classic_narrowed(d, step);
    assert(mid.reader.rest() =~= f.subrange(n + 4, f.len() as int));
    assert(mid.reader.rest().len() >= kk);
    let bytes = f.subrange(n + 4, n + 4 + kk);
    assert(mid.reader.rest().take(kk as int) =~= bytes);
    lemma_bval_take(f, n + 4, kk);
    lemma_feed_bval(mid.code, bytes);
    lemma_pow256(kk, 0);
    let p = pow256(kk);
    let g1 = bval(f.take(n + 4));
    let x = bval(bytes);
    let v1 = state_value(sk) + step.offset;
    assert(mid.code == g1 - v1);
    assert(0 <= p * (g1 - v1) + x < s2.3) by (nonlinear_arith)
        requires
            p >= 1,
            0 <= x < p,
            0 <= g1 - v1,
            g1 * p + x < state_value(s2) + s2.3,
            state_value(s2) == p * v1,
    ;
    assert(bval(f.take(n + kk + 4)) - state_value(s2) == p * (g1 - v1) + x) by (nonlinear_arith)
        requires
            bval(f.take(n + kk + 4)) == g1 * p + x,
            state_value(s2) == p * v1,
    ;
    assert(mid.code * p + x == p * (g1 - v1) + x) by (nonlinear_arith)
        requires
            mid.code == g1 - v1,
    ;
}

} // verus!

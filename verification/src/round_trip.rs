//! The round trip of the carryless range coder: a decoder that reads what the encoder
//! wrote, and follows the encoder's steps, finds its code in the part of the range
//! that the encoder chose at every step, and never runs out of input.
//!
//! The encoder's work is modelled as a run of steps, each narrowing the range to a
//! part of it and then, where asked, normalizing; the bytes it writes are those the
//! normalizations move out, followed by the four bytes of the final `low` that
//! `flush` writes. The proof rests on the fact that the number the encoder writes,
//! read from any point on, lies within the range the encoder had there.

use vstd::prelude::*;

use crate::range_coding::{
    be32, carryless_decoder_normalized, carryless_next, carryless_normalized, lemma_carryless_step,
    carryless_encoder_normalized, lemma_feed_window, lemma_shl8_small, low_bytes, window, RangeDecoder7a,
    RangeEncoder7a,
};

verus! {

/// One step of the carryless coder: the range narrows to its part
/// `[offset, offset + width)`, and is then normalized where `normalize` is set.
pub struct CoderStep {
    pub offset: u32,
    pub width: u32,
    pub normalize: bool,
}

/// The low, range and written bytes after one step from (`low`, `range`).
pub open spec fn step_result(low: u32, range: u32, st: CoderStep) -> (u32, u32, Seq<u8>) {
    let l = low.wrapping_add(st.offset);
    if st.normalize && st.width != 0 {
        carryless_normalized(l, st.width)
    } else {
        (l, st.width, Seq::<u8>::empty())
    }
}

/// The low, range and written bytes after the steps from (`low`, `range`).
pub open spec fn run(low: u32, range: u32, steps: Seq<CoderStep>) -> (u32, u32, Seq<u8>)
    decreases steps.len(),
{
    if steps.len() == 0 {
        (low, range, Seq::<u8>::empty())
    } else {
        let (l1, r1, o1) = step_result(low, range, steps[0]);
        let (l2, r2, o2) = run(l1, r1, steps.drop_first());
        (l2, r2, o1 + o2)
    }
}

/// Each step takes a nonempty part of the range it starts from.
pub open spec fn run_valid(low: u32, range: u32, steps: Seq<CoderStep>) -> bool
    decreases steps.len(),
{
    steps.len() == 0 || {
        let st = steps[0];
        let (l1, r1, o1) = step_result(low, range, st);
        &&& st.width > 0
        &&& st.offset + st.width <= range
        &&& run_valid(l1, r1, steps.drop_first())
    }
}

/// The four bytes of `low`, high byte first, as `flush` writes them.
pub open spec fn flush_bytes(low: u32) -> Seq<u8> {
    seq![(low >> 24) as u8, (low >> 16) as u8, (low >> 8) as u8, low as u8]
}

/// Everything the encoder writes for the steps from (`low`, `range`), flush included.
pub open spec fn coded(low: u32, range: u32, steps: Seq<CoderStep>) -> Seq<u8> {
    run(low, range, steps).2 + flush_bytes(run(low, range, steps).0)
}

/// The encoder's start: low zero and the full range.
pub open spec fn start_run(steps: Seq<CoderStep>) -> (u32, u32, Seq<u8>) {
    run(0, 0xFFFF_FFFF, steps)
}

/// The decoder `d` after it takes the part of step `st`: `offset` moves from its code
/// to its low, and its range narrows to `width`, as `decode` does.
pub open spec fn decoder_narrowed(d: RangeDecoder7a, st: CoderStep) -> RangeDecoder7a {
    RangeDecoder7a {
        low: d.low.wrapping_add(st.offset),
        range: st.width,
        code: d.code.wrapping_sub(st.offset),
        reader: d.reader,
    }
}

/// The encoder `e` after it takes the part of step `st`: `offset` is added to its low,
/// and its range narrows to `width`, as `encode` does.
pub open spec fn encoder_narrowed(e: RangeEncoder7a, st: CoderStep) -> RangeEncoder7a {
    RangeEncoder7a { low: e.low.wrapping_add(st.offset), range: st.width, writer: e.writer }
}

/// The part `[low, low + range)` does not pass the end of the 32-bit numbers, and
/// reaches it only from the top byte 0xFF.
pub open spec fn no_carry(low: u32, range: u32) -> bool {
    &&& low + range <= 0x1_0000_0000
    &&& low + range == 0x1_0000_0000 ==> low >= 0xFF00_0000
}

/// The bit facts of one normalization step from (`l`, `r`): shifting `low` left by a
/// byte keeps its low three bytes; the byte moved out is its top byte; when the top
/// bytes of both ends agree the range fits below the next top byte; otherwise, with a
/// small range, the cut at the next 2^15 boundary is nonempty, no wider than the
/// range, and does not pass the next top byte. The four bytes of `l` read back as `l`.
proof fn lemma_normalize_bits(l: u32, r: u32)
    by (bit_vector)
    requires
        r != 0,
        l + r <= 0x1_0000_0000,
        l + r == 0x1_0000_0000 ==> l >= 0xFF00_0000,
    ensures
        (l << 8) == (l % 0x100_0000) * 256,
        ((l >> 24) as u8) == l / 0x100_0000,
        ((l >> 24) as u8) * 0x100_0000 + ((l >> 16) as u8) * 0x1_0000 + ((l >> 8) as u8) * 0x100 + (l as u8) == l,
        (l ^ l.wrapping_add(r)) < 0x100_0000 ==> (l % 0x100_0000) + r < 0x100_0000,
        !((l ^ l.wrapping_add(r)) < 0x100_0000) && r < 0x8000 ==> 1 <= (0u32.wrapping_sub(l) & 0x7FFF) <= r,
        !((l ^ l.wrapping_add(r)) < 0x100_0000) && r < 0x8000 ==> (l % 0x100_0000) + (0u32.wrapping_sub(l)
            & 0x7FFF) <= 0x100_0000,
        !((l ^ l.wrapping_add(r)) < 0x100_0000) && r < 0x8000 && (l % 0x100_0000) + (0u32.wrapping_sub(l)
            & 0x7FFF) == 0x100_0000 ==> (l % 0x100_0000) >= 0xFF_8000,
{
}

/// A byte put before a stream of at least four bytes becomes the top byte of the number
/// read there, and the rest moves down a byte.
proof fn lemma_be32_prepend(b: u8, x: Seq<u8>)
    requires
        x.len() >= 4,
    ensures
        be32(seq![b] + x, 0) == b * 0x100_0000 + be32(x, 0) / 256,
{
    let y = seq![b] + x;
    assert(y[0] == b);
    assert(y[1] == x[0]);
    assert(y[2] == x[1]);
    assert(y[3] == x[2]);
    let v = x[0] as int * 0x100_0000 + x[1] as int * 0x1_0000 + x[2] as int * 0x100 + x[3] as int;
    assert(be32(x, 0) == v);
    assert(v / 256 == x[0] as int * 0x1_0000 + x[1] as int * 0x100 + x[2] as int);
}

/// One normalization step from (`l`, `r`) moves to (`l << 8`, `r2 << 8`) with the cut
/// range `r2`; the new part stays within the 32-bit numbers, and is the old part
/// `[l, l + r2)`, shifted up by a byte, after its top byte.
proof fn lemma_normalize_step(l: u32, r: u32)
    requires
        r != 0,
        no_carry(l, r),
        carryless_next(l, r) is Some,
    ensures
        ({
            let r2 = carryless_next(l, r)->0;
            &&& 1 <= r2 <= r
            &&& (r2 << 8) as int == r2 * 256
            &&& (l << 8) as int == (l % 0x100_0000) * 256
            &&& ((l >> 24) as u8) * 0x100_0000 + l % 0x100_0000 == l
            &&& (l % 0x100_0000) + r2 <= 0x100_0000
            &&& no_carry(l << 8, r2 << 8)
            &&& (r2 << 8) != 0
        }),
{
    lemma_normalize_bits(l, r);
    lemma_carryless_step(l, r);
    let r2 = carryless_next(l, r)->0;
    if (l ^ l.wrapping_add(r)) < 0x100_0000 {
        assert(r2 == r);
        lemma_shl8_small(r2);
    } else {
        assert(r < 0x8000);
        assert(r2 == 0u32.wrapping_sub(l) & 0x7FFF);
        lemma_shl8_small(r2);
    }
    assert(((l >> 24) as u8) as int == l / 0x100_0000);
}

/// Normalization keeps the part within the 32-bit numbers and nonempty.
proof fn lemma_normalize_no_carry(l: u32, r: u32)
    requires
        r != 0,
        no_carry(l, r),
    ensures
        no_carry(carryless_normalized(l, r).0, carryless_normalized(l, r).1),
        carryless_normalized(l, r).1 != 0,
    decreases low_bytes(l), 0x1_0000_0000 - r,
{
    match carryless_next(l, r) {
        None => {},
        Some(r2) => {
            lemma_normalize_step(l, r);
            lemma_carryless_step(l, r);
            lemma_normalize_no_carry(l << 8, r2 << 8);
        },
    }
}

/// A number read from the bytes normalization moves out, followed by a stream whose
/// number lies within the part normalization ends in, lies within the part it started
/// from.
proof fn lemma_normalize_keeps_value(l: u32, r: u32, t: Seq<u8>)
    requires
        r != 0,
        no_carry(l, r),
        t.len() >= 4,
        carryless_normalized(l, r).0 <= be32(t, 0) < carryless_normalized(l, r).0 + carryless_normalized(l, r).1,
    ensures
        l <= be32(carryless_normalized(l, r).2 + t, 0) < l + r,
    decreases low_bytes(l), 0x1_0000_0000 - r,
{
    match carryless_next(l, r) {
        None => {
            assert(carryless_normalized(l, r).2 + t =~= t);
        },
        Some(r2) => {
            lemma_normalize_step(l, r);
            lemma_carryless_step(l, r);
            let l1 = l << 8;
            let g1 = r2 << 8;
            lemma_normalize_keeps_value(l1, g1, t);
            let out2 = carryless_normalized(l1, g1).2;
            let b = (l >> 24) as u8;
            assert(carryless_normalized(l, r).2 == seq![b] + out2);
            assert(seq![b] + out2 + t =~= seq![b] + (out2 + t));
            lemma_be32_prepend(b, out2 + t);
            let v = be32(out2 + t, 0) as int;
            assert(l1 <= v < l1 + g1);
            assert((l % 0x100_0000) <= v / 256 < (l % 0x100_0000) + r2) by (nonlinear_arith)
                requires
                    (l % 0x100_0000) * 256 <= v < (l % 0x100_0000) * 256 + r2 * 256,
            ;
        },
    }
}

/// Along a run the part stays within the 32-bit numbers and nonempty.
proof fn lemma_run_no_carry(low: u32, range: u32, steps: Seq<CoderStep>)
    requires
        range != 0,
        no_carry(low, range),
        run_valid(low, range, steps),
    ensures
        run(low, range, steps).1 != 0,
        no_carry(run(low, range, steps).0, run(low, range, steps).1),
    decreases steps.len(),
{
    if steps.len() > 0 {
        let st = steps[0];
        let l = low.wrapping_add(st.offset);
        assert(l == low + st.offset);
        if st.normalize {
            lemma_normalize_no_carry(l, st.width);
        }
        let (l1, r1, o1) = step_result(low, range, st);
        lemma_run_no_carry(l1, r1, steps.drop_first());
    }
}

/// A run splits at any step: the first `k` steps, then the rest from where they end.
proof fn lemma_run_split(low: u32, range: u32, steps: Seq<CoderStep>, k: int)
    requires
        0 <= k <= steps.len(),
    ensures
        ({
            let (lk, rk, ok) = run(low, range, steps.take(k));
            let (l2, r2, o2) = run(lk, rk, steps.skip(k));
            &&& run(low, range, steps) == (l2, r2, ok + o2)
            &&& run_valid(low, range, steps) ==> run_valid(low, range, steps.take(k)) && run_valid(lk, rk, steps.skip(k))
        }),
    decreases k,
{
    if k == 0 {
        assert(steps.take(0) =~= Seq::<CoderStep>::empty());
        assert(steps.skip(0) =~= steps);
        let (l2, r2, o2) = run(low, range, steps);
        assert(Seq::<u8>::empty() + o2 =~= o2);
    } else {
        let st = steps[0];
        let (l1, r1, o1) = step_result(low, range, st);
        let tail = steps.drop_first();
        lemma_run_split(l1, r1, tail, k - 1);
        assert(steps.take(k).drop_first() =~= tail.take(k - 1));
        assert(steps.take(k)[0] == st);
        assert(steps.skip(k) =~= tail.skip(k - 1));
        let (lk, rk, ok) = run(l1, r1, tail.take(k - 1));
        let (l2, r2, o2) = run(lk, rk, tail.skip(k - 1));
        assert(o1 + (ok + o2) =~= (o1 + ok) + o2);
    }
}

/// The number the encoder writes, read from the point a run of steps starts, lies
/// within the part the run starts with, and within the part its first step takes.
proof fn lemma_run_value(low: u32, range: u32, steps: Seq<CoderStep>)
    requires
        range != 0,
        no_carry(low, range),
        run_valid(low, range, steps),
    ensures
        coded(low, range, steps).len() >= 4,
        low <= be32(coded(low, range, steps), 0) < low + range,
        steps.len() > 0 ==> low + steps[0].offset <= be32(coded(low, range, steps), 0) < low + steps[0].offset
            + steps[0].width,
    decreases steps.len(),
{
    if steps.len() == 0 {
        lemma_normalize_bits(low, range);
        assert(coded(low, range, steps) =~= flush_bytes(low));
    } else {
        let st = steps[0];
        let tail = steps.drop_first();
        let l = low.wrapping_add(st.offset);
        assert(l == low + st.offset);
        let (l1, r1, o1) = step_result(low, range, st);
        let (l2, r2, o2) = run(l1, r1, tail);
        let t = coded(l1, r1, tail);
        assert(coded(low, range, steps) =~= o1 + t);
        if st.normalize {
            lemma_normalize_no_carry(l, st.width);
            lemma_run_value(l1, r1, tail);
            lemma_normalize_keeps_value(l, st.width, t);
        } else {
            lemma_run_value(l1, r1, tail);
            assert(o1 + t =~= t);
        }
    }
}

/// The round trip of the carryless coder. A decoder that reads everything the encoder
/// wrote for a run of steps from its start, and that has followed the encoder through
/// the first `k` steps (it has read the four starting bytes and the bytes the encoder
/// wrote for those steps, and has the encoder's low and range), has its code within
/// the part that the encoder takes at step `k`: the decoder's threshold and bit
/// decisions pick the symbol the encoder coded.
pub proof fn law_carryless_round_trip(steps: Seq<CoderStep>, k: int, d: RangeDecoder7a)
    requires
        run_valid(0, 0xFFFF_FFFF, steps),
        0 <= k < steps.len(),
        d.wf(),
        d.reader.data() == coded(0, 0xFFFF_FFFF, steps),
        d.reader.pos() == start_run(steps.take(k)).2.len() + 4,
        d.low == start_run(steps.take(k)).0,
        d.range == start_run(steps.take(k)).1,
    ensures
        steps[k].offset <= d.code < steps[k].offset as int + steps[k].width as int,
{
    lemma_run_split(0, 0xFFFF_FFFF, steps, k);
    let (lk, rk, ok) = start_run(steps.take(k));
    let rest = steps.skip(k);
    lemma_run_no_carry(0, 0xFFFF_FFFF, steps.take(k));
    lemma_run_value(lk, rk, rest);
    let t = coded(lk, rk, rest);
    let data = d.reader.data();
    assert(data =~= ok + t);
    let pos = d.reader.pos() as int;
    lemma_feed_window(0, data.take(pos));
    assert(be32(data.take(pos), pos - 4) == be32(t, 0)) by {
        assert(data.take(pos)[pos - 4] == t[0]);
        assert(data.take(pos)[pos - 3] == t[1]);
        assert(data.take(pos)[pos - 2] == t[2]);
        assert(data.take(pos)[pos - 1] == t[3]);
    }
    assert(window(d.reader) == be32(t, 0));
    assert(rest[0] == steps[k]);
}

/// A decoder in step with the encoder before step `k` that takes the part of step `k`
/// (moving `offset` from its code to its low and narrowing its range to `width`, as
/// `decode` does) and then normalizes where the step asks, finds every byte it needs
/// in the encoder's output and is in step with the encoder before step `k + 1`.
pub proof fn law_carryless_decoder_follows(
    steps: Seq<CoderStep>,
    k: int,
    d: RangeDecoder7a,
    d2: RangeDecoder7a,
    r: Result<(), crate::error::IoError>,
)
    requires
        run_valid(0, 0xFFFF_FFFF, steps),
        0 <= k < steps.len(),
        d.wf(),
        d.reader.data() == coded(0, 0xFFFF_FFFF, steps),
        d.reader.pos() == start_run(steps.take(k)).2.len() + 4,
        d.low == start_run(steps.take(k)).0,
        d.range == start_run(steps.take(k)).1,
        steps[k].normalize ==> carryless_decoder_normalized(decoder_narrowed(d, steps[k]), d2, r),
        !steps[k].normalize ==> d2 == decoder_narrowed(d, steps[k]) && r is Ok,
    ensures
        r is Ok,
        d2.wf(),
        d2.reader.data() == d.reader.data(),
        d2.reader.pos() == start_run(steps.take(k + 1)).2.len() + 4,
        d2.low == start_run(steps.take(k + 1)).0,
        d2.range == start_run(steps.take(k + 1)).1,
{
    let st = steps[k];
    lemma_run_split(0, 0xFFFF_FFFF, steps, k);
    let (lk, rk, ok) = start_run(steps.take(k));
    let rest = steps.skip(k);
    lemma_run_no_carry(0, 0xFFFF_FFFF, steps.take(k));
    lemma_run_value(lk, rk, rest);
    lemma_run_split(0, 0xFFFF_FFFF, steps.take(k + 1), k);
    assert(steps.take(k + 1).take(k) =~= steps.take(k));
    assert(steps.take(k + 1).skip(k) =~= seq![st]);
    let (l1, r1, o1) = step_result(lk, rk, st);
    assert(seq![st].drop_first() =~= Seq::<CoderStep>::empty());
    assert(seq![st][0] == st);
    assert(run(l1, r1, seq![st].drop_first()) == (l1, r1, Seq::<u8>::empty()));
    assert(run(lk, rk, seq![st]) == (l1, r1, o1 + Seq::<u8>::empty()));
    assert(o1 + Seq::<u8>::empty() =~= o1);
    assert(start_run(steps.take(k + 1)) == (l1, r1, ok + o1));
    let t = coded(lk, rk, rest);
    let tail = rest.drop_first();
    assert(rest[0] == st);
    let t2 = coded(l1, r1, tail);
    lemma_normalize_bits(lk, rk);
    let l = lk.wrapping_add(st.offset);
    assert(l == lk + st.offset);
    if st.normalize {
        lemma_normalize_no_carry(l, st.width);
    }
    lemma_run_value(l1, r1, tail);
    assert(t =~= o1 + t2);
    assert(d.reader.data() =~= ok + t);
    let mid = decoder_narrowed(d, st);
    crate::range_coding::lemma_window_move(d.code, d.low, st.offset);
    if st.normalize {
        assert(mid.reader.rest().len() >= o1.len());
    }
}

/// An encoder in the state of a run before step `k` (the run's low and range, and
/// after the bytes `w0` it started with, the bytes the run wrote so far) that takes the
/// part of step `k` and normalizes where the step asks is in the run's state before
/// step `k + 1`.
pub proof fn law_carryless_encoder_follows(
    steps: Seq<CoderStep>,
    k: int,
    w0: Seq<u8>,
    e: RangeEncoder7a,
    e2: RangeEncoder7a,
)
    requires
        0 <= k < steps.len(),
        e.low == start_run(steps.take(k)).0,
        e.range == start_run(steps.take(k)).1,
        e.writer.data() == w0 + start_run(steps.take(k)).2,
        steps[k].normalize && steps[k].width != 0 ==> carryless_encoder_normalized(encoder_narrowed(e, steps[k]), e2),
        !(steps[k].normalize && steps[k].width != 0) ==> e2 == encoder_narrowed(e, steps[k]),
    ensures
        e2.low == start_run(steps.take(k + 1)).0,
        e2.range == start_run(steps.take(k + 1)).1,
        e2.writer.data() == w0 + start_run(steps.take(k + 1)).2,
{
    let st = steps[k];
    lemma_run_split(0, 0xFFFF_FFFF, steps.take(k + 1), k);
    assert(steps.take(k + 1).take(k) =~= steps.take(k));
    assert(steps.take(k + 1).skip(k) =~= seq![st]);
    let (lk, rk, ok) = start_run(steps.take(k));
    let (l1, r1, o1) = step_result(lk, rk, st);
    assert(seq![st].drop_first() =~= Seq::<CoderStep>::empty());
    assert(seq![st][0] == st);
    assert(run(l1, r1, seq![st].drop_first()) == (l1, r1, Seq::<u8>::empty()));
    assert(o1 + Seq::<u8>::empty() =~= o1);
    assert(start_run(steps.take(k + 1)) == (l1, r1, ok + o1));
    assert(w0 + ok + o1 =~= w0 + (ok + o1));
}

/// An encoder that has gone through all the steps of a run and then flushes has
/// written, after the bytes `w0` it started with, exactly what `coded` gives for the
/// run.
pub proof fn law_carryless_encoder_finishes(steps: Seq<CoderStep>, w0: Seq<u8>, e: RangeEncoder7a, e2: RangeEncoder7a)
    requires
        e.low == start_run(steps).0,
        e.writer.data() == w0 + start_run(steps).2,
        e2.writer.data() == e.writer.data() + seq![
            (e.low >> 24) as u8,
            (e.low >> 16) as u8,
            (e.low >> 8) as u8,
            e.low as u8,
        ],
    ensures
        e2.writer.data() == w0 + coded(0, 0xFFFF_FFFF, steps),
{
    assert(e2.writer.data() =~= w0 + coded(0, 0xFFFF_FFFF, steps));
}

} // verus!

//! The PPMd7 (PPMdH) model: its memory of contexts and states, its allocator, its
//! start state, and how it grows and adapts after each coded symbol.
//!
//! Contexts take one 12-byte unit: the number of states (16 bits), the sum of their
//! frequencies (16 bits), the offset of the states and the offset of the suffix. A
//! context with one state holds it in place of the sum and the offset. A state takes
//! six bytes: the symbol, its frequency and the offset of its successor.
//!
//! A corrupt stream can make the memory inconsistent. Every access stays inside the
//! memory; where a search or a walk along the model does not end, or a table index
//! read back is out of range, the functions stop early or take the nearest valid
//! entry; on a consistent model neither happens.

use vstd::prelude::*;

use crate::ppmd8::arena::Arena;
use crate::ppmd8::{
    build_ns2bs_index, build_unit_tables, index2units_wf, index_units, init_bin_esc, ns2bs_index_wf,
    units2index_wf, See, MAX_FREQ, PPMD_INT_BITS, PPMD_NUM_INDEXES, PPMD_PERIOD_BITS, UNIT_SIZE,
};
use crate::{PPMD7_MAX_MEM_SIZE, PPMD7_MAX_ORDER, PPMD7_MIN_MEM_SIZE, PPMD7_MIN_ORDER};

verus! {

/// The PPMd7 model with its range coder `RC`. Contexts, states and free blocks live
/// in `mem` at 32-bit offsets; offset zero stands for no context.
pub struct Ppmd7<RC> {
    pub min_context: u32,
    pub max_context: u32,
    pub found_state: u32,
    pub order_fall: u32,
    pub init_esc: u32,
    pub prev_success: u32,
    pub max_order: u32,
    pub hi_bits_flag: u32,
    pub run_length: i32,
    pub init_rl: i32,
    pub size: u32,
    pub glue_count: u32,
    pub align_offset: u32,
    pub lo_unit: u32,
    pub hi_unit: u32,
    pub text: u32,
    pub units_start: u32,
    pub index2units: Vec<u8>,
    pub units2index: Vec<u8>,
    pub free_list: Vec<u32>,
    pub ns2bs_index: Vec<u8>,
    pub ns2index: Vec<u8>,
    pub dummy_see: See,
    pub see: Vec<See>,
    pub bin_summ: Vec<u16>,
    pub mem: Arena,
    pub rc: RC,
}

/// Whether `max_order` and `mem_size` are within the ranges that PPMd7 accepts.
pub open spec fn ppmd7_model_params_valid(max_order: u32, mem_size: u32) -> bool {
    &&& PPMD7_MIN_ORDER <= max_order <= PPMD7_MAX_ORDER
    &&& PPMD7_MIN_MEM_SIZE <= mem_size <= PPMD7_MAX_MEM_SIZE
}

/// The table from a context's number of states to its row of escape estimators:
/// 256 entries, each a row.
pub open spec fn ns2index7_wf(t: Seq<u8>) -> bool {
    &&& t.len() == 256
    &&& forall|i: int| 0 <= i < 256 ==> #[trigger] t[i] < 25
}

/// The model `b` is consistent and is `a` with the same coder and parameters.
pub open spec fn frame7<RC>(a: Ppmd7<RC>, b: Ppmd7<RC>) -> bool {
    &&& b.wf()
    &&& b.rc == a.rc
    &&& b.max_order == a.max_order
    &&& b.size == a.size
    &&& b.align_offset == a.align_offset
}

/// The model `b` is `a` with only its memory changed, to a memory of the same size.
pub open spec fn mem_only7<RC>(a: Ppmd7<RC>, b: Ppmd7<RC>) -> bool {
    &&& b == (Ppmd7 { mem: b.mem, ..a })
    &&& b.mem.bytes().len() == a.mem.bytes().len()
}

/// The model `b` is `a` with only its allocator changed: the memory, the free lists,
/// the bounds of the free area and the units area, and the glue counter.
pub open spec fn alloc_only7<RC>(a: Ppmd7<RC>, b: Ppmd7<RC>) -> bool {
    &&& b == (Ppmd7 {
        mem: b.mem,
        free_list: b.free_list,
        lo_unit: b.lo_unit,
        hi_unit: b.hi_unit,
        units_start: b.units_start,
        glue_count: b.glue_count,
        ..a
    })
    &&& b.mem.bytes().len() == a.mem.bytes().len()
    &&& b.free_list.len() == a.free_list.len()
}

/// The probability update after a binary context's symbol came: up by one unit,
/// less the mean.
pub open spec fn prob_after_hit(prob: int) -> int {
    prob + 128 - (prob + 32) / 128
}

/// The probability update after a binary context escaped: down by the mean.
pub open spec fn prob_after_miss(prob: int) -> int {
    prob - (prob + 32) / 128
}

/// Whether the symbol `sym` gets the high flag: 0x40 and above.
pub open spec fn hb2flag(sym: int) -> int {
    if sym >= 0x40 {
        8
    } else {
        0
    }
}

/// The initial sum of the escape estimator in row `i`.
pub open spec fn init_see7_summ(i: int) -> int {
    (5 * i + 10) * 8
}

/// The initial probability of the binary contexts of frequency `i + 1`, for the
/// column `k` modulo 8.
pub open spec fn init_bin7(i: int, k: int) -> int {
    0x4000 - init_bin_esc(k) / (i + 2)
}

impl<RC> Ppmd7<RC> {
    /// The tables are built, and the memory has the size the model was made with.
    pub open spec fn wf(&self) -> bool {
        &&& index2units_wf(self.index2units@)
        &&& units2index_wf(self.units2index@)
        &&& ns2bs_index_wf(self.ns2bs_index@)
        &&& ns2index7_wf(self.ns2index@)
        &&& self.free_list.len() == PPMD_NUM_INDEXES
        &&& self.see.len() == 25 * 16
        &&& self.bin_summ.len() == 128 * 64
        &&& self.align_offset < 4
        &&& self.mem.bytes().len() == self.align_offset + self.size
        &&& ppmd7_model_params_valid(self.max_order, self.size)
    }

    /// The model right after a restart: all 256 symbols in the root context, which
    /// sits in the last unit of the memory, with frequency one each, and an empty
    /// text.
    pub open spec fn started(&self) -> bool {
        let hi = (self.align_offset + self.size) as u32;
        let root = (hi - 12) as u32;
        &&& self.text == self.align_offset
        &&& self.hi_unit == root
        &&& self.min_context == root
        &&& self.max_context == root
        &&& self.units_start == hi - (self.size as int / 8 / 12) * 7 * 12
        &&& self.lo_unit == self.units_start + 128 * 12
        &&& self.found_state == self.units_start
        &&& self.order_fall == self.max_order
        &&& self.prev_success == 0
        &&& self.glue_count == 0
        &&& self.run_length == self.init_rl
        &&& self.init_rl == -(if self.max_order < 12 { self.max_order as int } else { 12 }) - 1
        &&& forall|i: int| 0 <= i < PPMD_NUM_INDEXES ==> #[trigger] self.free_list@[i] == 0
        &&& self.mem.spec_rd16(root) == 256
        &&& self.mem.spec_rd16((root + 2) as u32) == 257
        &&& self.mem.spec_rd32((root + 4) as u32) == self.units_start
        &&& self.mem.spec_rd32((root + 8) as u32) == 0
        &&& forall|j: int|
            0 <= j < 256 ==> {
                &&& #[trigger] self.mem.spec_rd8((self.units_start + 6 * j) as u32) == j
                &&& self.mem.spec_rd8((self.units_start + 6 * j + 1) as u32) == 1
                &&& self.mem.spec_rd32((self.units_start + 6 * j + 2) as u32) == 0
            }
        &&& forall|i: int, k: int| 0 <= i < 128 && 0 <= k < 64 ==> #[trigger] self.bin_summ@[i * 64 + k] == init_bin7(i, k % 8)
        &&& forall|i: int, k: int|
            0 <= i < 25 && 0 <= k < 16 ==> {
                &&& #[trigger] self.see@[i * 16 + k].summ == init_see7_summ(i)
                &&& self.see@[i * 16 + k].shift == 3
                &&& self.see@[i * 16 + k].count == 4
            }
    }
}

/// Builds the table from a context's number of states to its row of escape
/// estimators: one row each for one, two and three states, then rows that cover one,
/// two, three and more counts in turn.
pub fn build_ns2index7() -> (t: Vec<u8>)
    ensures
        ns2index7_wf(t@),
{
    let mut t: Vec<u8> = Vec::new();
    t.push(0);
    t.push(1);
    t.push(2);
    let mut m: u32 = 3;
    let mut k: u32 = 1;
    let mut i: usize = 3;
    while i < 256
        invariant
            3 <= i <= 256,
            t.len() == i,
            3 <= m <= i,
            k >= 1,
            forall|j: int| 0 <= j < i ==> #[trigger] t@[j] < 25,
        decreases 256 - i,
    {
        let v: u8 = if m < 25 {
            m as u8
        } else {
            24
        };
        t.push(v);
        k = k - 1;
        if k == 0 {
            m = m + 1;
            k = m - 2;
        }
        i = i + 1;
    }
    t
}

/// Builds the probabilities of the binary contexts at a restart.
pub fn build_bin_summ7() -> (b: Vec<u16>)
    ensures
        b.len() == 128 * 64,
        forall|i: int, k: int| 0 <= i < 128 && 0 <= k < 64 ==> #[trigger] b@[i * 64 + k] == init_bin7(i, k % 8),
{
    let esc: [u16; 8] = [0x3CDD, 0x1F3F, 0x59BF, 0x48F3, 0x64A1, 0x5ABC, 0x6632, 0x6051];
    proof {
        assert(esc@[0] == init_bin_esc(0));
        assert(esc@[1] == init_bin_esc(1));
        assert(esc@[2] == init_bin_esc(2));
        assert(esc@[3] == init_bin_esc(3));
        assert(esc@[4] == init_bin_esc(4));
        assert(esc@[5] == init_bin_esc(5));
        assert(esc@[6] == init_bin_esc(6));
        assert(esc@[7] == init_bin_esc(7));
    }
    let mut b: Vec<u16> = Vec::new();
    let mut i: u32 = 0;
    while i < 128
        invariant
            i <= 128,
            b.len() == i * 64,
            forall|j: int| 0 <= j < 8 ==> #[trigger] esc@[j] == init_bin_esc(j),
            forall|ii: int, k: int| 0 <= ii < i && 0 <= k < 64 ==> #[trigger] b@[ii * 64 + k] == init_bin7(ii, k % 8),
        decreases 128 - i,
    {
        let mut k: u32 = 0;
        while k < 64
            invariant
                i < 128,
                k <= 64,
                b.len() == i * 64 + k,
                forall|j: int| 0 <= j < 8 ==> #[trigger] esc@[j] == init_bin_esc(j),
                forall|ii: int, kk: int| 0 <= ii < i && 0 <= kk < 64 ==> #[trigger] b@[ii * 64 + kk] == init_bin7(ii, kk % 8),
                forall|kk: int| 0 <= kk < k ==> #[trigger] b@[i * 64 + kk] == init_bin7(i as int, kk % 8),
            decreases 64 - k,
        {
            let e = esc[(k % 8) as usize] as u32;
            proof {
                assert(e == init_bin_esc((k % 8) as int));
                assert(init_bin_esc((k % 8) as int) <= 0x6632);
                vstd::arithmetic::div_mod::lemma_div_is_ordered_by_denominator(e as int, 2, (i + 2) as int);
                assert(e as int / (i + 2) as int <= 0x3319);
            }
            let v = (0x4000u32 - e / (i + 2)) as u16;
            b.push(v);
            proof {
                assert forall|ii: int, kk: int| 0 <= ii < i && 0 <= kk < 64 implies #[trigger] b@[ii * 64 + kk] == init_bin7(ii, kk % 8) by {
                    assert(ii * 64 + kk < i * 64) by (nonlinear_arith)
                        requires 0 <= ii < i, 0 <= kk < 64;
                }
                assert forall|kk: int| 0 <= kk < k + 1 implies #[trigger] b@[i * 64 + kk] == init_bin7(i as int, kk % 8) by {
                    if kk < k {
                    } else {
                        assert(b@[i * 64 + kk] == v);
                    }
                }
            }
            k = k + 1;
        }
        proof {
            assert forall|ii: int, kk: int| 0 <= ii < i + 1 && 0 <= kk < 64 implies #[trigger] b@[ii * 64 + kk] == init_bin7(ii, kk % 8) by {
                if ii < i {
                } else {
                    assert(ii == i);
                }
            }
        }
        i = i + 1;
    }
    b
}

/// Builds the escape estimators at a restart.
pub fn build_see7() -> (t: Vec<See>)
    ensures
        t.len() == 25 * 16,
        forall|i: int, k: int|
            0 <= i < 25 && 0 <= k < 16 ==> {
                &&& #[trigger] t@[i * 16 + k].summ == init_see7_summ(i)
                &&& t@[i * 16 + k].shift == 3
                &&& t@[i * 16 + k].count == 4
            },
{
    let mut t: Vec<See> = Vec::new();
    let mut i: u32 = 0;
    while i < 25
        invariant
            i <= 25,
            t.len() == i * 16,
            forall|ii: int, k: int|
                0 <= ii < i && 0 <= k < 16 ==> {
                    &&& #[trigger] t@[ii * 16 + k].summ == init_see7_summ(ii)
                    &&& t@[ii * 16 + k].shift == 3
                    &&& t@[ii * 16 + k].count == 4
                },
        decreases 25 - i,
    {
        let mut k: u32 = 0;
        while k < 16
            invariant
                i < 25,
                k <= 16,
                t.len() == i * 16 + k,
                forall|ii: int, kk: int|
                    0 <= ii < i && 0 <= kk < 16 ==> {
                        &&& #[trigger] t@[ii * 16 + kk].summ == init_see7_summ(ii)
                        &&& t@[ii * 16 + kk].shift == 3
                        &&& t@[ii * 16 + kk].count == 4
                    },
                forall|kk: int|
                    0 <= kk < k ==> {
                        &&& #[trigger] t@[i * 16 + kk].summ == init_see7_summ(i as int)
                        &&& t@[i * 16 + kk].shift == 3
                        &&& t@[i * 16 + kk].count == 4
                    },
            decreases 16 - k,
        {
            t.push(See { summ: ((5 * i + 10) * 8) as u16, shift: 3, count: 4 });
            proof {
                assert forall|ii: int, kk: int| 0 <= ii < i && 0 <= kk < 16 implies {
                    &&& #[trigger] t@[ii * 16 + kk].summ == init_see7_summ(ii)
                    &&& t@[ii * 16 + kk].shift == 3
                    &&& t@[ii * 16 + kk].count == 4
                } by {
                    assert(ii * 16 + kk < i * 16) by (nonlinear_arith)
                        requires 0 <= ii < i, 0 <= kk < 16;
                }
            }
            k = k + 1;
        }
        proof {
            assert forall|ii: int, kk: int| 0 <= ii < i + 1 && 0 <= kk < 16 implies {
                &&& #[trigger] t@[ii * 16 + kk].summ == init_see7_summ(ii)
                &&& t@[ii * 16 + kk].shift == 3
                &&& t@[ii * 16 + kk].count == 4
            } by {
                if ii < i {
                } else {
                    assert(ii == i);
                }
            }
        }
        i = i + 1;
    }
    t
}

} // verus!

//! The PPMd8 (PPMdI) model: contexts and states in a memory of fixed size, the
//! tables the model is built with, its allocator, and how it grows and adapts to the
//! coded symbols.

use vstd::prelude::*;

pub mod units;
pub mod arena;
pub mod model;
pub mod update;
pub mod grow;
pub mod adapt;

use crate::range_coding::PPMD_BIN_SCALE;

verus! {

/// The number of size classes of free blocks.
pub const PPMD_NUM_INDEXES: u32 = 38;

/// Bits of the integer part of a binary context probability.
pub const PPMD_INT_BITS: u32 = 7;

/// Bits of the adaptation period of the escape estimators.
pub const PPMD_PERIOD_BITS: u32 = 7;

/// The size of a memory unit in bytes.
pub const UNIT_SIZE: u32 = 12;

/// The largest frequency a state reaches before its context is rescaled.
pub const MAX_FREQ: u8 = 124;

/// The stamp of a free block.
pub const EMPTY_NODE: u32 = 0xFFFF_FFFF;

/// Context flag: the context was rescaled.
pub const FLAG_RESCALED: u8 = 4;

/// Context flag: the previous symbol had its high bit set.
pub const FLAG_PREV_HIGH: u8 = 16;

/// What the model does when its memory runs full.
#[derive(Debug, Clone, Copy, PartialEq, Eq, Structural)]
pub enum RestoreMethod {
    /// Start the model afresh.
    Restart,
    /// Cut the model down to the part that is in use.
    CutOff,
}

/// An adaptive estimator of escape frequencies.
#[derive(Debug, Clone, Copy, PartialEq, Eq, Structural)]
pub struct See {
    pub summ: u16,
    pub shift: u8,
    pub count: u8,
}

impl See {
    /// Counts one use; after `count` uses the estimator doubles its sum and widens
    /// its period, up to `PPMD_PERIOD_BITS`.
    pub fn update(&mut self)
        ensures
            old(self).shift >= PPMD_PERIOD_BITS ==> *final(self) == *old(self),
            old(self).shift < PPMD_PERIOD_BITS && old(self).count != 1 ==> *final(self) == (See {
                count: old(self).count.wrapping_sub(1),
                ..*old(self)
            }),
            old(self).shift < PPMD_PERIOD_BITS && old(self).count == 1 ==> *final(self) == (See {
                summ: ((old(self).summ as int * 2) % 0x1_0000) as u16,
                count: (3 * pow2_small(old(self).shift as nat)) as u8,
                shift: (old(self).shift + 1) as u8,
            }),
    {
        if (self.shift as u32) < PPMD_PERIOD_BITS {
            self.count = self.count.wrapping_sub(1);
            if self.count == 0 {
                let sh = self.shift;
                let summ = self.summ;
                proof {
                    assert(((summ as u32) << 1) as u16 == ((summ as int * 2) % 0x1_0000) as u16) by (bit_vector);
                    lemma_three_shl(sh);
                }
                self.summ = ((self.summ as u32) << 1) as u16;
                self.count = (3u32 << (self.shift as u32)) as u8;
                self.shift = self.shift + 1;
            }
        }
    }
}

/// Two to the power `k`.
pub open spec fn pow2_small(k: nat) -> int
    decreases k,
{
    if k == 0 {
        1
    } else {
        2 * pow2_small((k - 1) as nat)
    }
}

proof fn lemma_three_shl(sh: u8)
    requires
        sh < 7,
    ensures
        (3u32 << (sh as u32)) as int == 3 * pow2_small(sh as nat),
        3 * pow2_small(sh as nat) < 256,
{
    assert(pow2_small(0) == 1);
    assert(pow2_small(1) == 2);
    assert(pow2_small(2) == 4);
    assert(pow2_small(3) == 8);
    assert(pow2_small(4) == 16);
    assert(pow2_small(5) == 32);
    assert(pow2_small(6) == 64);
    let s = sh as u32;
    assert({
        &&& s == 0 ==> (3u32 << s) == 3
        &&& s == 1 ==> (3u32 << s) == 6
        &&& s == 2 ==> (3u32 << s) == 12
        &&& s == 3 ==> (3u32 << s) == 24
        &&& s == 4 ==> (3u32 << s) == 48
        &&& s == 5 ==> (3u32 << s) == 96
        &&& s == 6 ==> (3u32 << s) == 192
    }) by (bit_vector);
}

/// Where an escape estimator lives: the table, or the dummy used for the order-(-1)
/// context with all 256 symbols.
#[derive(Debug, Clone, Copy, PartialEq, Eq, Structural)]
pub enum SeeSource {
    Dummy,
    Table(usize, usize),
}

/// How many units a block of size class `i` has.
pub open spec fn index_units(i: int) -> int {
    if i < 4 {
        i + 1
    } else if i < 8 {
        2 * i - 2
    } else if i < 12 {
        3 * i - 9
    } else {
        4 * i - 20
    }
}

/// Where the entries of `ns2index` with value `m` begin: values 0 to 5 take one
/// entry each from the start, and from 5 on, value `m` takes `m - 4` entries.
pub open spec fn ns_start(m: int) -> int
    decreases m,
{
    if m <= 5 {
        m
    } else {
        ns_start(m - 1) + (m - 5)
    }
}

/// The values that bound the tables: `ns_start(26)` and `ns_start(30)`.
pub proof fn lemma_ns_start_values()
    ensures
        ns_start(26) == 236,
        ns_start(27) == 258,
        ns_start(30) == 330,
{
    reveal_with_fuel(ns_start, 32);
}

pub proof fn lemma_ns_start_grows(m: int)
    ensures
        m >= 0 ==> ns_start(m) >= m,
        m >= 5 ==> ns_start(m + 1) == ns_start(m) + (m - 4),
        m <= 5 ==> ns_start(m) == m,
    decreases m,
{
    if m > 5 {
        lemma_ns_start_grows(m - 1);
    }
}

pub proof fn lemma_ns_start_monotone(a: int, b: int)
    requires
        a <= b,
    ensures
        ns_start(a) <= ns_start(b),
    decreases b - a,
{
    if a < b {
        lemma_ns_start_monotone(a, b - 1);
        lemma_ns_start_grows(b - 1);
        if b - 1 >= 5 {
        } else {
            if b <= 5 {
            } else {
                assert(ns_start(b) == ns_start(b - 1) + (b - 5));
            }
        }
    }
}

/// The table from a context's number of states to its row: entry `i` holds the `m`
/// whose entries `ns_start(m) .. ns_start(m + 1)` cover `i`.
pub open spec fn ns2index_wf(t: Seq<u8>) -> bool {
    &&& t.len() == 260
    &&& forall|i: int| 0 <= i < 260 ==> ns_start(#[trigger] t[i] as int) <= i < ns_start(t[i] as int + 1)
}

/// The table from a number of units to the size class that holds it: the smallest
/// class with at least that many units.
pub open spec fn units2index_wf(t: Seq<u8>) -> bool {
    &&& t.len() == 128
    &&& forall|k: int|
        0 <= k < 128 ==> {
            &&& (#[trigger] t[k] as int) < PPMD_NUM_INDEXES
            &&& index_units(t[k] as int) >= k + 1
            &&& (t[k] == 0 || index_units(t[k] - 1) < k + 1)
        }
}

/// The table from a size class to its number of units.
pub open spec fn index2units_wf(t: Seq<u8>) -> bool {
    &&& t.len() == 40
    &&& forall|i: int| 0 <= i < PPMD_NUM_INDEXES ==> #[trigger] t[i] as int == index_units(i)
}

/// The table from the number of states of the suffix context to a part of the binary
/// context row.
pub open spec fn ns2bs_index_wf(t: Seq<u8>) -> bool {
    &&& t.len() == 256
    &&& t[0] == 0
    &&& t[1] == 2
    &&& forall|i: int| 2 <= i < 11 ==> #[trigger] t[i] == 4
    &&& forall|i: int| 11 <= i < 256 ==> #[trigger] t[i] == 6
}

/// Builds the tables between numbers of units and size classes.
pub fn build_unit_tables() -> (r: (Vec<u8>, Vec<u8>))
    ensures
        index2units_wf(r.0@),
        units2index_wf(r.1@),
{
    let mut index2units: Vec<u8> = Vec::new();
    let mut units2index: Vec<u8> = Vec::new();
    let mut i: u32 = 0;
    while i < PPMD_NUM_INDEXES
        invariant
            i <= PPMD_NUM_INDEXES,
            index2units.len() == i,
            i == 0 ==> units2index.len() == 0,
            i > 0 ==> units2index.len() == index_units(i - 1),
            forall|j: int| 0 <= j < i ==> #[trigger] index2units@[j] as int == index_units(j),
            forall|k: int|
                0 <= k < units2index.len() ==> {
                    &&& (#[trigger] units2index@[k] as int) < i
                    &&& index_units(units2index@[k] as int) >= k + 1
                    &&& (units2index@[k] == 0 || index_units(units2index@[k] - 1) < k + 1)
                },
        decreases PPMD_NUM_INDEXES - i,
    {
        proof {
            assert(i < 12 ==> (i >> 2) == i / 4) by (bit_vector);
        }
        let step: u32 = if i >= 12 {
            4
        } else {
            (i >> 2) + 1
        };
        let mut s: u32 = 0;
        let ghost start = units2index.len();
        while s < step
            invariant
                s <= step,
                i < PPMD_NUM_INDEXES,
                step == index_units(i as int) - (if i == 0 { 0 } else { index_units(i - 1) }),
                start == (if i == 0 { 0 } else { index_units(i - 1) }),
                units2index.len() == start + s,
                forall|k: int|
                    0 <= k < start ==> {
                        &&& (#[trigger] units2index@[k] as int) < i
                        &&& index_units(units2index@[k] as int) >= k + 1
                        &&& (units2index@[k] == 0 || index_units(units2index@[k] - 1) < k + 1)
                    },
                forall|k: int| start <= k < units2index.len() ==> #[trigger] units2index@[k] == i,
            decreases step - s,
        {
            units2index.push(i as u8);
            s = s + 1;
        }
        index2units.push(units2index.len() as u8);
        i = i + 1;
    }
    index2units.push(0);
    index2units.push(0);
    (index2units, units2index)
}


/// Builds the table from the number of states of the suffix context to a part of the
/// binary context row.
pub fn build_ns2bs_index() -> (t: Vec<u8>)
    ensures
        ns2bs_index_wf(t@),
{
    let mut t: Vec<u8> = Vec::new();
    t.push(0);
    t.push(2);
    let mut i: usize = 2;
    while i < 256
        invariant
            2 <= i <= 256,
            t.len() == i,
            t@[0] == 0,
            t@[1] == 2,
            forall|j: int| 2 <= j < i && j < 11 ==> #[trigger] t@[j] == 4,
            forall|j: int| 11 <= j < i ==> #[trigger] t@[j] == 6,
        decreases 256 - i,
    {
        if i < 11 {
            t.push(4);
        } else {
            t.push(6);
        }
        i = i + 1;
    }
    t
}

/// Builds the table from a context's number of states to its row.
pub fn build_ns2index() -> (t: Vec<u8>)
    ensures
        ns2index_wf(t@),
{
    let mut t: Vec<u8> = Vec::new();
    let mut i: u32 = 0;
    while i < 5
        invariant
            i <= 5,
            t.len() == i,
            forall|j: int| 0 <= j < i ==> #[trigger] t@[j] as int == j,
        decreases 5 - i,
    {
        t.push(i as u8);
        i = i + 1;
    }
    proof {
        assert forall|j: int| 0 <= j < 5 implies ns_start(#[trigger] t@[j] as int) <= j < ns_start(t@[j] as int + 1) by {
            lemma_ns_start_grows(j);
            lemma_ns_start_grows(j + 1);
        }
        lemma_ns_start_grows(5);
        lemma_ns_start_grows(6);
    }
    let mut m: u32 = 5;
    let mut k: u32 = 1;
    while i < 260
        invariant
            5 <= i <= 260,
            t.len() == i,
            5 <= m <= i,
            1 <= k,
            ns_start(m as int) <= i,
            k == ns_start(m + 1) - i,
            forall|j: int| 0 <= j < i ==> ns_start(#[trigger] t@[j] as int) <= j < ns_start(t@[j] as int + 1),
        decreases 260 - i,
    {
        proof {
            lemma_ns_start_grows(m as int);
            lemma_ns_start_grows(m + 1);
            lemma_ns_start_values();
            if m >= 30 {
                lemma_ns_start_monotone(30, m as int);
            }
        }
        t.push(m as u8);
        k = k - 1;
        if k == 0 {
            m = m + 1;
            k = m - 4;
        }
        i = i + 1;
        proof {
            lemma_ns_start_grows(m as int);
        }
    }
    t
}

/// The initial escape estimates of the binary contexts, by the low three bits of the
/// row position.
pub open spec fn init_bin_esc(k: int) -> int {
    if k == 0 {
        0x3CDD
    } else if k == 1 {
        0x1F3F
    } else if k == 2 {
        0x59BF
    } else if k == 3 {
        0x48F3
    } else if k == 4 {
        0x64A1
    } else if k == 5 {
        0x5ABC
    } else if k == 6 {
        0x6632
    } else {
        0x6051
    }
}

fn init_bin_esc_exec(k: usize) -> (v: u32)
    requires
        k < 8,
    ensures
        v == init_bin_esc(k as int),
{
    if k == 0 {
        0x3CDD
    } else if k == 1 {
        0x1F3F
    } else if k == 2 {
        0x59BF
    } else if k == 3 {
        0x48F3
    } else if k == 4 {
        0x64A1
    } else if k == 5 {
        0x5ABC
    } else if k == 6 {
        0x6632
    } else {
        0x6051
    }
}

/// The initial probabilities of the binary contexts: row `m`, column `c`.
pub open spec fn init_bin_summ(m: int, c: int) -> int {
    PPMD_BIN_SCALE - init_bin_esc(c % 8) / (ns_start(m + 1) + 1)
}

/// The initial escape estimators: row `m`.
pub open spec fn init_see_summ(m: int) -> int {
    (2 * (ns_start(m + 4) - 3) + 5) * 8
}

/// Fills the binary context probabilities (25 rows of 64) with their start values.
pub fn build_bin_summ(ns2index: &Vec<u8>) -> (b: Vec<u16>)
    requires
        ns2index_wf(ns2index@),
    ensures
        b.len() == 25 * 64,
        forall|m: int, c: int| 0 <= m < 25 && 0 <= c < 64 ==> #[trigger] b@[m * 64 + c] as int == init_bin_summ(m, c),
{
    let mut b: Vec<u16> = Vec::new();
    let mut i: u32 = 0;
    let mut m: usize = 0;
    while m < 25
        invariant
            m <= 25,
            ns2index_wf(ns2index@),
            b.len() == m * 64,
            i == ns_start(m as int),
            forall|mm: int, c: int| 0 <= mm < m && 0 <= c < 64 ==> #[trigger] b@[mm * 64 + c] as int == init_bin_summ(mm, c),
        decreases 25 - m,
    {
        proof {
            lemma_ns_start_grows(m as int);
            lemma_ns_start_grows(m + 1);
            lemma_ns_start_grows(25);
            lemma_ns_start_grows(26);
            lemma_ns_start_monotone(m + 1, 26);
            lemma_ns_start_values();
        }
        while i < 260 && ns2index[i as usize] as usize == m
            invariant
                m < 25,
                ns2index_wf(ns2index@),
                ns_start(m as int) <= i <= ns_start(m + 1),
                ns_start(m + 1) <= ns_start(26),
                ns_start(26) < 260,
            decreases 260 - i,
        {
            proof {
                let v = ns2index@[i as int] as int;
                if i == ns_start(m + 1) {
                    assert(ns_start(v) <= i < ns_start(v + 1));
                    if v < m + 1 {
                        lemma_ns_start_monotone(v + 1, m + 1);
                    }
                }
            }
            i = i + 1;
        }
        proof {
            if i < ns_start(m + 1) {
                let v = ns2index@[i as int] as int;
                assert(ns_start(v) <= i < ns_start(v + 1));
                if v < m {
                    lemma_ns_start_monotone(v + 1, m as int);
                } else if v > m {
                    lemma_ns_start_monotone(m + 1, v);
                }
            }
        }
        proof {
            lemma_ns_start_grows(m + 1);
        }
        let mut c: usize = 0;
        while c < 64
            invariant
                m < 25,
                c <= 64,
                b.len() == m * 64 + c,
                i == ns_start(m + 1),
                1 <= i < 260,
                forall|mm: int, cc: int| 0 <= mm < m && 0 <= cc < 64 ==> #[trigger] b@[mm * 64 + cc] as int == init_bin_summ(mm, cc),
                forall|cc: int| 0 <= cc < c ==> #[trigger] b@[m * 64 + cc] as int == init_bin_summ(m as int, cc),
            decreases 64 - c,
        {
            let k = c % 8;
            let e = init_bin_esc_exec(k);
            proof {
                assert((e as int) / (i as int + 1) <= (e as int) / 2) by (nonlinear_arith)
                    requires i >= 1, e >= 0;
            }
            let v = PPMD_BIN_SCALE - e / (i + 1);
            b.push(v as u16);
            proof {
                assert(b@[m * 64 + c] as int == init_bin_summ(m as int, c as int));
                assert forall|mm: int, cc: int| 0 <= mm < m && 0 <= cc < 64 implies #[trigger] b@[mm * 64 + cc] as int == init_bin_summ(mm, cc) by {
                    assert(mm * 64 + cc < m * 64) by (nonlinear_arith)
                        requires mm < m, cc < 64;
                }
            }
            c = c + 1;
        }
        m = m + 1;
        proof {
            assert forall|mm: int, cc: int| 0 <= mm < m && 0 <= cc < 64 implies #[trigger] b@[mm * 64 + cc] as int == init_bin_summ(mm, cc) by {
                if mm < m - 1 {
                } else {
                    assert(mm == m - 1);
                }
            }
        }
    }
    b
}


/// Fills the escape estimators (24 rows of 32) with their start values.
pub fn build_see(ns2index: &Vec<u8>) -> (t: Vec<See>)
    requires
        ns2index_wf(ns2index@),
    ensures
        t.len() == 24 * 32,
        forall|m: int, c: int|
            0 <= m < 24 && 0 <= c < 32 ==> #[trigger] t@[m * 32 + c] == (See {
                summ: init_see_summ(m) as u16,
                shift: (PPMD_PERIOD_BITS - 4) as u8,
                count: 7,
            }),
{
    let mut t: Vec<See> = Vec::new();
    let mut i: u32 = 0;
    let mut m: usize = 0;
    proof {
        lemma_ns_start_values();
        lemma_ns_start_grows(3);
    }
    while m < 24
        invariant
            m <= 24,
            ns2index_wf(ns2index@),
            t.len() == m * 32,
            i + 3 == ns_start(m + 3),
            ns_start(26) == 236,
            forall|mm: int, c: int|
                0 <= mm < m && 0 <= c < 32 ==> #[trigger] t@[mm * 32 + c] == (See {
                    summ: init_see_summ(mm) as u16,
                    shift: (PPMD_PERIOD_BITS - 4) as u8,
                    count: 7,
                }),
        decreases 24 - m,
    {
        proof {
            lemma_ns_start_grows(m + 3);
            lemma_ns_start_grows(m + 4);
            lemma_ns_start_monotone(m + 4, 27);
            lemma_ns_start_grows(26);
        }
        while i + 3 < 260 && ns2index[(i + 3) as usize] as usize == m + 3
            invariant
                m < 24,
                ns2index_wf(ns2index@),
                ns_start(m + 3) <= i + 3 <= ns_start(m + 4),
                ns_start(m + 4) <= ns_start(27),
                ns_start(27) == 258,
            decreases 260 - i,
        {
            proof {
                let v = ns2index@[i + 3] as int;
                if i + 3 == ns_start(m + 4) {
                    assert(ns_start(v) <= i + 3 < ns_start(v + 1));
                    if v < m + 4 {
                        lemma_ns_start_monotone(v + 1, m + 4);
                    }
                }
            }
            i = i + 1;
        }
        proof {
            if i + 3 < ns_start(m + 4) {
                let v = ns2index@[i + 3] as int;
                assert(ns_start(v) <= i + 3 < ns_start(v + 1));
                if v < m + 3 {
                    lemma_ns_start_monotone(v + 1, m + 3);
                } else if v > m + 3 {
                    lemma_ns_start_monotone(m + 4, v);
                }
            }
        }
        let base: u32 = 2 * i + 5;
        let summ = base << (PPMD_PERIOD_BITS - 4);
        proof {
            assert(base <= 600);
            assert(base << 3u32 == base * 8) by (bit_vector)
                requires base <= 600;
        }
        let see = See { summ: summ as u16, shift: (PPMD_PERIOD_BITS - 4) as u8, count: 7 };
        let mut c: usize = 0;
        while c < 32
            invariant
                m < 24,
                c <= 32,
                t.len() == m * 32 + c,
                see == (See { summ: init_see_summ(m as int) as u16, shift: (PPMD_PERIOD_BITS - 4) as u8, count: 7 }),
                forall|mm: int, cc: int|
                    0 <= mm < m && 0 <= cc < 32 ==> #[trigger] t@[mm * 32 + cc] == (See {
                        summ: init_see_summ(mm) as u16,
                        shift: (PPMD_PERIOD_BITS - 4) as u8,
                        count: 7,
                    }),
                forall|cc: int| 0 <= cc < c ==> #[trigger] t@[m * 32 + cc] == see,
            decreases 32 - c,
        {
            t.push(see);
            proof {
                assert forall|mm: int, cc: int| 0 <= mm < m && 0 <= cc < 32 implies #[trigger] t@[mm * 32 + cc] == (See {
                    summ: init_see_summ(mm) as u16,
                    shift: (PPMD_PERIOD_BITS - 4) as u8,
                    count: 7,
                }) by {
                    assert(mm * 32 + cc < m * 32) by (nonlinear_arith)
                        requires mm < m, cc < 32;
                }
            }
            c = c + 1;
        }
        m = m + 1;
        proof {
            assert forall|mm: int, cc: int| 0 <= mm < m && 0 <= cc < 32 implies #[trigger] t@[mm * 32 + cc] == (See {
                summ: init_see_summ(mm) as u16,
                shift: (PPMD_PERIOD_BITS - 4) as u8,
                count: 7,
            }) by {
                if mm < m - 1 {
                } else {
                    assert(mm == m - 1);
                }
            }
        }
    }
    t
}

} // verus!

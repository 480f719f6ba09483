//! The fields of PPMd7 contexts and states in the model memory, the allocator of
//! 12-byte units, and the model's construction and restart.

use vstd::prelude::*;

use super::model::{alloc_only7, build_bin_summ7, build_ns2index7, build_see7, frame7, mem_only7, ppmd7_model_params_valid, Ppmd7};
use crate::ppmd8::arena::{fits, le16, le32, same_outside, Arena};
use crate::ppmd8::model::lemma_le32_bytes;
use crate::ppmd8::{build_ns2bs_index, build_unit_tables, index_units, See, PPMD_NUM_INDEXES, PPMD_PERIOD_BITS, UNIT_SIZE};

verus! {

/// The bytes of a free block at `node`: the head of its list links to the block
/// that was the head before.
pub open spec fn linked7<RC>(a: Ppmd7<RC>, b: Ppmd7<RC>, node: u32, index: u32) -> bool {
    &&& b.free_list@ == a.free_list@.update(index as int, node)
    &&& fits(node, 4, a.mem.bytes().len()) ==> b.mem.spec_rd32(node) == a.free_list@[index as int]
}

/// `b` is `a` after `shrink_units` cut the block at `old_ptr` from `old_nu` to
/// `new_nu` units and returned `r`: where the states move, the smaller block leaves
/// its list, holds the first `new_nu` units of the old one, and the old block heads
/// the list of its class; else the tail of the old block heads the list of its size
/// (or of the next smaller class, the few units left going to their own list).
#[verifier::opaque]
pub open spec fn shrink_filed7<RC>(a: Ppmd7<RC>, b: Ppmd7<RC>, old_ptr: u32, old_nu: u32, new_nu: u32, r: u32) -> bool {
    let m0 = a.mem.bytes();
    let m = b.mem.bytes();
    let n = new_nu * 12;
    let i0 = a.units2index@[old_nu - 1] as int;
    let i1 = a.units2index@[new_nu - 1] as int;
    let shrinks = 1 <= old_nu <= 128 && 1 <= new_nu <= 128 && i0 > i1;
    &&& shrinks && a.free_list@[i1] != 0 ==> {
        &&& b.free_list@ == a.free_list@.update(i1, a.mem.spec_rd32(r)).update(i0, old_ptr)
        &&& fits(old_ptr, 4, m0.len()) ==> b.mem.spec_rd32(old_ptr) == a.free_list@[i0]
        &&& fits(old_ptr, n as nat, m0.len()) && fits(r, n as nat, m0.len()) && (r + n <= old_ptr || old_ptr + 4 <= r)
            ==> forall|j: int| 0 <= j < n ==> #[trigger] m[r + j] == m0[old_ptr + j]
    }
    &&& shrinks && a.free_list@[i1] == 0 ==> {
        let nu = index_units(i0) - index_units(i1);
        let i = a.units2index@[nu - 1] as int;
        let cls = if index_units(i) == nu { i } else { i - 1 };
        b.free_list@[cls] == old_ptr.wrapping_add((index_units(i1) * 12) as u32)
    }
}

/// `b` is `a` started afresh by `restart_model`: in its start state, with the same
/// coder, parameters, tables and initial escape, and with its memory changed only in
/// the root context and its 256 states.
pub open spec fn restarted7<RC>(a: Ppmd7<RC>, b: Ppmd7<RC>) -> bool {
    let m0 = a.mem.bytes();
    let m = b.mem.bytes();
    &&& frame7(a, b)
    &&& b.started()
    &&& b.init_esc == a.init_esc
    &&& b.hi_bits_flag == a.hi_bits_flag
    &&& b.dummy_see == a.dummy_see
    &&& b.index2units == a.index2units
    &&& b.units2index == a.units2index
    &&& b.ns2bs_index == a.ns2bs_index
    &&& b.ns2index == a.ns2index
    &&& m.len() == m0.len()
    &&& forall|j: int| 0 <= j < b.hi_unit && !(b.units_start <= j < b.units_start + 6 * 256) ==> #[trigger] m[j] == m0[j]
}

/// Restarting a model that has just been restarted changes nothing: every field,
/// every table and every byte of the memory come out as they were.
pub proof fn law_restart_twice_is_once7<RC>(a: Ppmd7<RC>, b: Ppmd7<RC>, c: Ppmd7<RC>)
    requires
        restarted7(a, b),
        restarted7(b, c),
    ensures
        c.mem.bytes() == b.mem.bytes(),
        c.free_list@ == b.free_list@,
        c.see@ == b.see@,
        c.bin_summ@ == b.bin_summ@,
        c == (Ppmd7 { mem: c.mem, free_list: c.free_list, see: c.see, bin_summ: c.bin_summ, ..b }),
{
    let mb = b.mem.bytes();
    let mc = c.mem.bytes();
    let h = b.hi_unit as int;
    let u = b.units_start as int;
    assert(h + 12 == mb.len());
    assert forall|j: int| 0 <= j < mb.len() implies #[trigger] mc[j] == mb[j] by {
        if h <= j {
            assert(c.mem.spec_rd16(b.hi_unit) == b.mem.spec_rd16(b.hi_unit));
            assert(c.mem.spec_rd16((h + 2) as u32) == b.mem.spec_rd16((h + 2) as u32));
            assert(c.mem.spec_rd32((h + 4) as u32) == b.mem.spec_rd32((h + 4) as u32));
            assert(c.mem.spec_rd32((h + 8) as u32) == b.mem.spec_rd32((h + 8) as u32));
            if j >= h + 4 && j < h + 8 {
                lemma_le32_bytes(mc, mb, h + 4);
            } else if j >= h + 8 {
                lemma_le32_bytes(mc, mb, h + 8);
            }
        } else if u <= j < u + 6 * 256 {
            let k = (j - u) / 6;
            let r = (j - u) % 6;
            assert(j == u + 6 * k + r);
            assert(0 <= k < 256);
            assert(b.mem.spec_rd8((u + 6 * k) as u32) == k && c.mem.spec_rd8((u + 6 * k) as u32) == k);
            assert(b.mem.spec_rd8((u + 6 * k + 1) as u32) == 1 && c.mem.spec_rd8((u + 6 * k + 1) as u32) == 1);
            if r >= 2 {
                assert(b.mem.spec_rd32((u + 6 * k + 2) as u32) == 0 && c.mem.spec_rd32((u + 6 * k + 2) as u32) == 0);
                lemma_le32_bytes(mc, mb, u + 6 * k + 2);
            }
        }
    }
    assert(mc =~= mb);
    assert forall|i: int| 0 <= i < PPMD_NUM_INDEXES implies #[trigger] c.free_list@[i] == b.free_list@[i] by {}
    assert(c.free_list@ =~= b.free_list@);
    assert forall|i: int| 0 <= i < 25 * 16 implies #[trigger] c.see@[i] == b.see@[i] by {
        let mm = i / 16;
        let kk = i % 16;
        assert(i == mm * 16 + kk);
        assert(c.see@[mm * 16 + kk].summ == b.see@[mm * 16 + kk].summ);
    }
    assert(c.see@ =~= b.see@);
    assert forall|i: int| 0 <= i < 128 * 64 implies #[trigger] c.bin_summ@[i] == b.bin_summ@[i] by {
        let mm = i / 64;
        let kk = i % 64;
        assert(i == mm * 64 + kk);
        assert(c.bin_summ@[mm * 64 + kk] == b.bin_summ@[mm * 64 + kk]);
    }
    assert(c.bin_summ@ =~= b.bin_summ@);
}

impl<RC> Ppmd7<RC> {
    /// The number of states of the context `c`.
    pub fn num_stats(&self, c: u32) -> (v: u32)
        ensures
            v == self.mem.spec_rd16(c),
            v < 0x1_0000,
    {
        self.mem.rd16(c) as u32
    }

    pub fn set_num_stats(&mut self, c: u32, v: u16)
        requires
            old(self).wf(),
        ensures
            mem_only7(*old(self), *final(self)),
            final(self).wf(),
            fits(c, 2, old(self).mem.bytes().len()) ==> final(self).mem.spec_rd16(c) == v,
            fits(c, 2, old(self).mem.bytes().len()) ==> same_outside(old(self).mem.bytes(), final(self).mem.bytes(), c as int, 2),
            !fits(c, 2, old(self).mem.bytes().len()) ==> final(self).mem.bytes() == old(self).mem.bytes(),
    {
        self.mem.wr16(c, v);
    }

    /// The sum of the frequencies of the context `c` with more than one state.
    pub fn summ_freq(&self, c: u32) -> (v: u32)
        ensures
            v == self.mem.spec_rd16(c.wrapping_add(2)),
            v < 0x1_0000,
    {
        self.mem.rd16(c.wrapping_add(2)) as u32
    }

    pub fn set_summ_freq(&mut self, c: u32, v: u16)
        requires
            old(self).wf(),
        ensures
            mem_only7(*old(self), *final(self)),
            final(self).wf(),
            fits(c.wrapping_add(2), 2, old(self).mem.bytes().len()) ==> final(self).mem.spec_rd16(c.wrapping_add(2)) == v,
            fits(c.wrapping_add(2), 2, old(self).mem.bytes().len()) ==> same_outside(old(self).mem.bytes(), final(self).mem.bytes(), c.wrapping_add(2) as int, 2),
            !fits(c.wrapping_add(2), 2, old(self).mem.bytes().len()) ==> final(self).mem.bytes() == old(self).mem.bytes(),
    {
        self.mem.wr16(c.wrapping_add(2), v);
    }

    /// The offset of the states of the context `c` with more than one state.
    pub fn stats(&self, c: u32) -> (v: u32)
        ensures
            v == self.mem.spec_rd32(c.wrapping_add(4)),
    {
        self.mem.rd32(c.wrapping_add(4))
    }

    pub fn set_stats(&mut self, c: u32, v: u32)
        requires
            old(self).wf(),
        ensures
            mem_only7(*old(self), *final(self)),
            final(self).wf(),
            fits(c.wrapping_add(4), 4, old(self).mem.bytes().len()) ==> final(self).mem.spec_rd32(c.wrapping_add(4)) == v,
            fits(c.wrapping_add(4), 4, old(self).mem.bytes().len()) ==> same_outside(old(self).mem.bytes(), final(self).mem.bytes(), c.wrapping_add(4) as int, 4),
            !fits(c.wrapping_add(4), 4, old(self).mem.bytes().len()) ==> final(self).mem.bytes() == old(self).mem.bytes(),
    {
        self.mem.wr32(c.wrapping_add(4), v);
    }

    /// The suffix of the context `c`; zero for the root.
    pub fn suffix(&self, c: u32) -> (v: u32)
        ensures
            v == self.mem.spec_rd32(c.wrapping_add(8)),
    {
        self.mem.rd32(c.wrapping_add(8))
    }

    pub fn set_suffix(&mut self, c: u32, v: u32)
        requires
            old(self).wf(),
        ensures
            mem_only7(*old(self), *final(self)),
            final(self).wf(),
            fits(c.wrapping_add(8), 4, old(self).mem.bytes().len()) ==> final(self).mem.spec_rd32(c.wrapping_add(8)) == v,
            fits(c.wrapping_add(8), 4, old(self).mem.bytes().len()) ==> same_outside(old(self).mem.bytes(), final(self).mem.bytes(), c.wrapping_add(8) as int, 4),
            !fits(c.wrapping_add(8), 4, old(self).mem.bytes().len()) ==> final(self).mem.bytes() == old(self).mem.bytes(),
    {
        self.mem.wr32(c.wrapping_add(8), v);
    }

    /// The state that a context with one state holds in place.
    pub fn one_state(&self, c: u32) -> (s: u32)
        ensures
            s == c.wrapping_add(2),
    {
        c.wrapping_add(2)
    }

    /// The symbol of the state `s`.
    pub fn sym(&self, s: u32) -> (v: u32)
        ensures
            v == self.mem.spec_rd8(s),
            v < 256,
    {
        self.mem.rd8(s) as u32
    }

    pub fn set_sym(&mut self, s: u32, v: u8)
        requires
            old(self).wf(),
        ensures
            mem_only7(*old(self), *final(self)),
            final(self).wf(),
            fits(s, 1, old(self).mem.bytes().len()) ==> final(self).mem.spec_rd8(s) == v,
            fits(s, 1, old(self).mem.bytes().len()) ==> same_outside(old(self).mem.bytes(), final(self).mem.bytes(), s as int, 1),
            !fits(s, 1, old(self).mem.bytes().len()) ==> final(self).mem.bytes() == old(self).mem.bytes(),
    {
        self.mem.wr8(s, v);
    }

    /// The frequency of the state `s`.
    pub fn freq(&self, s: u32) -> (v: u32)
        ensures
            v == self.mem.spec_rd8(s.wrapping_add(1)),
            v < 256,
    {
        self.mem.rd8(s.wrapping_add(1)) as u32
    }

    pub fn set_freq(&mut self, s: u32, v: u8)
        requires
            old(self).wf(),
        ensures
            mem_only7(*old(self), *final(self)),
            final(self).wf(),
            fits(s.wrapping_add(1), 1, old(self).mem.bytes().len()) ==> final(self).mem.spec_rd8(s.wrapping_add(1)) == v,
            fits(s.wrapping_add(1), 1, old(self).mem.bytes().len()) ==> same_outside(old(self).mem.bytes(), final(self).mem.bytes(), s.wrapping_add(1) as int, 1),
            !fits(s.wrapping_add(1), 1, old(self).mem.bytes().len()) ==> final(self).mem.bytes() == old(self).mem.bytes(),
    {
        self.mem.wr8(s.wrapping_add(1), v);
    }

    /// The successor of the state `s`: a context, a position in the text, or zero.
    pub fn successor(&self, s: u32) -> (v: u32)
        ensures
            v == self.mem.spec_rd32(s.wrapping_add(2)),
    {
        self.mem.rd32(s.wrapping_add(2))
    }

    pub fn set_successor(&mut self, s: u32, v: u32)
        requires
            old(self).wf(),
        ensures
            mem_only7(*old(self), *final(self)),
            final(self).wf(),
            fits(s.wrapping_add(2), 4, old(self).mem.bytes().len()) ==> final(self).mem.spec_rd32(s.wrapping_add(2)) == v,
            fits(s.wrapping_add(2), 4, old(self).mem.bytes().len()) ==> same_outside(old(self).mem.bytes(), final(self).mem.bytes(), s.wrapping_add(2) as int, 4),
            !fits(s.wrapping_add(2), 4, old(self).mem.bytes().len()) ==> final(self).mem.bytes() == old(self).mem.bytes(),
    {
        self.mem.wr32(s.wrapping_add(2), v);
    }

    /// Copies the six bytes of the state `src` over the state `dst`.
    pub fn copy_state(&mut self, src: u32, dst: u32)
        requires
            old(self).wf(),
        ensures
            mem_only7(*old(self), *final(self)),
            final(self).wf(),
            fits(src, 6, old(self).mem.bytes().len()) && fits(dst, 6, old(self).mem.bytes().len()) ==> final(self).mem.bytes()
                == old(self).mem.bytes().subrange(0, dst as int) + old(self).mem.bytes().subrange(src as int, src + 6)
                + old(self).mem.bytes().subrange(dst + 6, old(self).mem.bytes().len() as int),
            !(fits(src, 6, old(self).mem.bytes().len()) && fits(dst, 6, old(self).mem.bytes().len())) ==> final(self).mem.bytes()
                == old(self).mem.bytes(),
    {
        self.mem.copy(src, dst, 6);
    }

    /// Exchanges the states `a` and `b`.
    pub fn swap_states(&mut self, a: u32, b: u32)
        requires
            old(self).wf(),
        ensures
            mem_only7(*old(self), *final(self)),
            final(self).wf(),
            fits(a, 6, old(self).mem.bytes().len()) && fits(b, 6, old(self).mem.bytes().len()) && (a + 6 <= b || b + 6 <= a)
                ==> {
                &&& final(self).mem.spec_rd8(a) == old(self).mem.spec_rd8(b)
                &&& final(self).mem.spec_rd8((a + 1) as u32) == old(self).mem.spec_rd8((b + 1) as u32)
                &&& final(self).mem.spec_rd32((a + 2) as u32) == old(self).mem.spec_rd32((b + 2) as u32)
                &&& final(self).mem.spec_rd8(b) == old(self).mem.spec_rd8(a)
                &&& final(self).mem.spec_rd8((b + 1) as u32) == old(self).mem.spec_rd8((a + 1) as u32)
                &&& final(self).mem.spec_rd32((b + 2) as u32) == old(self).mem.spec_rd32((a + 2) as u32)
                &&& forall|j: int|
                    0 <= j < old(self).mem.bytes().len() && !(a <= j < a + 6) && !(b <= j < b + 6)
                        ==> #[trigger] final(self).mem.bytes()[j] == old(self).mem.bytes()[j]
            },
    {
        let sa = self.sym(a);
        let fa = self.freq(a);
        let ua = self.successor(a);
        let sb = self.sym(b);
        let fb = self.freq(b);
        let ub = self.successor(b);
        let ghost m0 = self.mem.bytes();
        self.set_sym(a, sb as u8);
        let ghost m1 = self.mem.bytes();
        self.set_freq(a, fb as u8);
        let ghost m2 = self.mem.bytes();
        self.set_successor(a, ub);
        let ghost m3 = self.mem.bytes();
        self.set_sym(b, sa as u8);
        let ghost m4 = self.mem.bytes();
        self.set_freq(b, fa as u8);
        let ghost m5 = self.mem.bytes();
        self.set_successor(b, ua);
        proof {
            let m6 = self.mem.bytes();
            if fits(a, 6, m0.len()) && fits(b, 6, m0.len()) && (a + 6 <= b || b + 6 <= a) {
                let x = a as int;
                let y = b as int;
                assert(a.wrapping_add(1) == a + 1 && a.wrapping_add(2) == a + 2);
                assert(b.wrapping_add(1) == b + 1 && b.wrapping_add(2) == b + 2);
                assert(m6[x] == m5[x] && m5[x] == m4[x] && m4[x] == m3[x] && m3[x] == m2[x] && m2[x] == m1[x]);
                assert(m6[x + 1] == m5[x + 1] && m5[x + 1] == m4[x + 1] && m4[x + 1] == m3[x + 1] && m3[x + 1] == m2[x + 1]);
                assert forall|k: int| 2 <= k < 6 implies #[trigger] m6[x + k] == m3[x + k] by {
                    assert(m6[x + k] == m5[x + k] && m5[x + k] == m4[x + k] && m4[x + k] == m3[x + k]);
                }
                assert(m6[x + 2] == m3[x + 2] && m6[x + 3] == m3[x + 3] && m6[x + 4] == m3[x + 4] && m6[x + 5] == m3[x + 5]);
                assert(m6[y] == m5[y] && m5[y] == m4[y]);
                assert(m6[y + 1] == m5[y + 1]);
                assert forall|j: int| 0 <= j < m0.len() && !(x <= j < x + 6) && !(y <= j < y + 6) implies #[trigger] m6[j]
                    == m0[j] by {
                    assert(m6[j] == m5[j] && m5[j] == m4[j] && m4[j] == m3[j] && m3[j] == m2[j] && m2[j] == m1[j] && m1[j] == m0[j]);
                }
            }
        }
    }

    /// The number of units of size class `i`.
    pub fn i2u(&self, i: u32) -> (n: u32)
        requires
            self.wf(),
            i < PPMD_NUM_INDEXES,
        ensures
            n as int == index_units(i as int),
            1 <= n <= 128,
    {
        self.index2units[i as usize] as u32
    }

    /// The size class for `nu` units between 1 and 128; class zero otherwise.
    pub fn u2i(&self, nu: u32) -> (i: u32)
        requires
            self.wf(),
        ensures
            1 <= nu <= 128 ==> i == self.units2index@[nu - 1] as u32,
            !(1 <= nu <= 128) ==> i == 0,
            i < PPMD_NUM_INDEXES,
    {
        if 1 <= nu && nu <= 128 {
            self.units2index[(nu - 1) as usize] as u32
        } else {
            0
        }
    }

    /// Puts the block at `node` at the head of the list of size class `index`.
    pub fn insert_node(&mut self, node: u32, index: u32)
        requires
            old(self).wf(),
            index < PPMD_NUM_INDEXES,
        ensures
            frame7(*old(self), *final(self)),
            linked7(*old(self), *final(self), node, index),
            *final(self) == (Ppmd7 { mem: final(self).mem, free_list: final(self).free_list, ..*old(self) }),
            same_outside(old(self).mem.bytes(), final(self).mem.bytes(), node as int, 4),
    {
        let head = self.free_list[index as usize];
        self.mem.wr32(node, head);
        self.free_list.set(index as usize, node);
    }

    /// Takes the block at the head of the list of size class `index`.
    pub fn remove_node(&mut self, index: u32) -> (node: u32)
        requires
            old(self).wf(),
            index < PPMD_NUM_INDEXES,
        ensures
            frame7(*old(self), *final(self)),
            node == old(self).free_list@[index as int],
            final(self).free_list@ == old(self).free_list@.update(index as int, old(self).mem.spec_rd32(node)),
            *final(self) == (Ppmd7 { free_list: final(self).free_list, ..*old(self) }),
    {
        let node = self.free_list[index as usize];
        let next = self.mem.rd32(node);
        self.free_list.set(index as usize, next);
        node
    }

    /// Gives back the part of a block of size class `old_index` beyond its first
    /// `index2units[new_index]` units.
    pub fn split_block(&mut self, ptr: u32, old_index: u32, new_index: u32)
        requires
            old(self).wf(),
            new_index < old_index < PPMD_NUM_INDEXES,
        ensures
            alloc_only7(*old(self), *final(self)),
            frame7(*old(self), *final(self)),
            final(self).lo_unit == old(self).lo_unit,
            final(self).hi_unit == old(self).hi_unit,
            final(self).units_start == old(self).units_start,
            final(self).text == old(self).text,
            final(self).glue_count == old(self).glue_count,
            ({
                let nu = index_units(old_index as int) - index_units(new_index as int);
                let i = old(self).units2index@[nu - 1] as int;
                let cls = if index_units(i) == nu { i } else { i - 1 };
                final(self).free_list@[cls] == ptr.wrapping_add((index_units(new_index as int) * 12) as u32)
            }),
    {
        proof {
            assert(index_units(new_index as int) < index_units(old_index as int));
        }
        let nu = self.i2u(old_index) - self.i2u(new_index);
        let ptr = ptr.wrapping_add(self.i2u(new_index) * UNIT_SIZE);
        let mut i = self.u2i(nu);
        proof {
            if index_units(i as int) != nu {
                assert(i >= 1);
            }
        }
        if self.i2u(i) != nu && i >= 1 {
            i = i - 1;
            let k = self.i2u(i);
            let rest = nu.wrapping_sub(k).wrapping_sub(1);
            if rest < PPMD_NUM_INDEXES {
                self.insert_node(ptr.wrapping_add(k * UNIT_SIZE), rest);
            }
        }
        self.insert_node(ptr, i);
    }

    /// Merges each free block with the free blocks that follow it in memory and sorts
    /// the merged blocks back into the lists by size class.
    ///
    /// A free block is marked by a zero in its first 16 bits, where used units hold a
    /// number of states or a symbol with a nonzero frequency; the unit at the start of
    /// the free area is marked used for the time of the merge.
    pub fn glue_free_blocks(&mut self)
        requires
            old(self).wf(),
        ensures
            alloc_only7(*old(self), *final(self)),
            frame7(*old(self), *final(self)),
            final(self).lo_unit == old(self).lo_unit,
            final(self).hi_unit == old(self).hi_unit,
            final(self).units_start == old(self).units_start,
            final(self).text == old(self).text,
            final(self).glue_count == 255,
    {
        self.glue_count = 255;
        if self.lo_unit != self.hi_unit {
            self.mem.wr16(self.lo_unit, 1);
        }
        // Chain all free blocks through their third word, each marked free with its
        // number of units.
        let mut n: u32 = 0;
        let mut i: u32 = 0;
        while i < PPMD_NUM_INDEXES
            invariant
                frame7(*old(self), *self),
                alloc_only7(*old(self), *self),
                self.lo_unit == old(self).lo_unit,
                self.hi_unit == old(self).hi_unit,
                self.units_start == old(self).units_start,
                self.text == old(self).text,
                self.glue_count == 255,
                i <= PPMD_NUM_INDEXES,
            decreases PPMD_NUM_INDEXES - i,
        {
            let nu = self.i2u(i) as u16;
            let mut next = self.free_list[i as usize];
            self.free_list.set(i as usize, 0);
            let mut fuel: usize = self.mem.len();
            while next != 0 && fuel > 0
                invariant
                    frame7(*old(self), *self),
                    alloc_only7(*old(self), *self),
                alloc_only7(*old(self), *self),
                    self.lo_unit == old(self).lo_unit,
                    self.hi_unit == old(self).hi_unit,
                    self.units_start == old(self).units_start,
                    self.text == old(self).text,
                    self.glue_count == 255,
                    i < PPMD_NUM_INDEXES,
                decreases fuel,
            {
                fuel = fuel - 1;
                let node = next;
                next = self.mem.rd32(node);
                self.mem.wr16(node, 0);
                self.mem.wr16(node.wrapping_add(2), nu);
                self.mem.wr32(node.wrapping_add(4), n);
                n = node;
            }
            i = i + 1;
        }
        let head = n;
        // Merge each listed block with the free blocks right after it; a block merged
        // into another keeps zero units and is passed over.
        let mut fuel: usize = self.mem.len();
        while n != 0 && fuel > 0
            invariant
                frame7(*old(self), *self),
                alloc_only7(*old(self), *self),
                self.lo_unit == old(self).lo_unit,
                self.hi_unit == old(self).hi_unit,
                self.units_start == old(self).units_start,
                self.text == old(self).text,
                self.glue_count == 255,
            decreases fuel,
        {
            fuel = fuel - 1;
            let node = n;
            let mut nu = self.mem.rd16(node.wrapping_add(2)) as u32;
            n = self.mem.rd32(node.wrapping_add(4));
            if nu != 0 {
                let mut fuel2: usize = self.mem.len();
                while fuel2 > 0
                    invariant
                        frame7(*old(self), *self),
                        alloc_only7(*old(self), *self),
                    alloc_only7(*old(self), *self),
                alloc_only7(*old(self), *self),
                        self.lo_unit == old(self).lo_unit,
                        self.hi_unit == old(self).hi_unit,
                        self.units_start == old(self).units_start,
                        self.text == old(self).text,
                        self.glue_count == 255,
                        nu < 0x1_0000,
                    decreases fuel2,
                {
                    fuel2 = fuel2 - 1;
                    let node2 = node.wrapping_add(nu.wrapping_mul(UNIT_SIZE));
                    let nu2 = self.mem.rd16(node2.wrapping_add(2)) as u32;
                    if self.mem.rd16(node2) != 0 || nu + nu2 >= 0x1_0000 {
                        break;
                    }
                    nu = nu + nu2;
                    self.mem.wr16(node.wrapping_add(2), nu as u16);
                    self.mem.wr16(node2.wrapping_add(2), 0);
                }
            }
        }
        // Sort the merged blocks into the lists.
        n = head;
        let mut fuel: usize = self.mem.len();
        while n != 0 && fuel > 0
            invariant
                frame7(*old(self), *self),
                alloc_only7(*old(self), *self),
                self.lo_unit == old(self).lo_unit,
                self.hi_unit == old(self).hi_unit,
                self.units_start == old(self).units_start,
                self.text == old(self).text,
                self.glue_count == 255,
            decreases fuel,
        {
            fuel = fuel - 1;
            let mut node = n;
            let mut nu = self.mem.rd16(node.wrapping_add(2)) as u32;
            n = self.mem.rd32(node.wrapping_add(4));
            if nu != 0 {
                while nu > 128
                    invariant
                        frame7(*old(self), *self),
                        alloc_only7(*old(self), *self),
                    alloc_only7(*old(self), *self),
                alloc_only7(*old(self), *self),
                        self.lo_unit == old(self).lo_unit,
                        self.hi_unit == old(self).hi_unit,
                        self.units_start == old(self).units_start,
                        self.text == old(self).text,
                        self.glue_count == 255,
                    decreases nu,
                {
                    self.insert_node(node, PPMD_NUM_INDEXES - 1);
                    nu = nu - 128;
                    node = node.wrapping_add(128 * UNIT_SIZE);
                }
                let mut i = self.u2i(nu);
                if self.i2u(i) != nu && i >= 1 {
                    i = i - 1;
                    let k = self.i2u(i);
                    let rest = nu.wrapping_sub(k).wrapping_sub(1);
                    if rest < PPMD_NUM_INDEXES {
                        self.insert_node(node.wrapping_add(k * UNIT_SIZE), rest);
                    }
                }
                self.insert_node(node, i);
            }
        }
    }

    /// Finds a block of size class `index` when the list and the free area are empty:
    /// after a glue, in a larger list (splitting it), or below the units area.
    pub fn alloc_units_rare(&mut self, index: u32) -> (r: Option<u32>)
        requires
            old(self).wf(),
            index < PPMD_NUM_INDEXES,
        ensures
            alloc_only7(*old(self), *final(self)),
            frame7(*old(self), *final(self)),
            final(self).lo_unit == old(self).lo_unit,
            final(self).hi_unit == old(self).hi_unit,
            final(self).text == old(self).text,
            old(self).glue_count != 0 && (forall|i: int| index < i < PPMD_NUM_INDEXES ==> #[trigger] old(self).free_list@[i] == 0)
                ==> {
                let nb = index_units(index as int) * 12;
                &&& old(self).units_start.wrapping_sub(old(self).text) > nb ==> r == Some(old(self).units_start.wrapping_sub(nb as u32))
                    && final(self).units_start == old(self).units_start.wrapping_sub(nb as u32)
                &&& old(self).units_start.wrapping_sub(old(self).text) <= nb ==> r is None
            },
    {
        if self.glue_count == 0 {
            self.glue_free_blocks();
            if self.free_list[index as usize] != 0 {
                return Some(self.remove_node(index));
            }
        }
        let ghost glued = old(self).glue_count == 0;
        let mut i = index;
        loop
            invariant
                frame7(*old(self), *self),
                alloc_only7(*old(self), *self),
                self.lo_unit == old(self).lo_unit,
                self.hi_unit == old(self).hi_unit,
                self.text == old(self).text,
                index <= i < PPMD_NUM_INDEXES,
                glued == (old(self).glue_count == 0),
                !glued ==> *self == *old(self),
            decreases PPMD_NUM_INDEXES - i,
        {
            i = i + 1;
            if i == PPMD_NUM_INDEXES {
                let num_bytes = self.i2u(index) * UNIT_SIZE;
                self.glue_count = self.glue_count.wrapping_sub(1);
                let us = self.units_start;
                if us.wrapping_sub(self.text) > num_bytes {
                    let start = us.wrapping_sub(num_bytes);
                    self.units_start = start;
                    return Some(start);
                }
                return None;
            }
            if self.free_list[i as usize] != 0 {
                let block = self.remove_node(i);
                self.split_block(block, i, index);
                return Some(block);
            }
        }
    }

    /// A block of size class `index`: from its list, from the free area, or as
    /// `alloc_units_rare` finds one.
    pub fn alloc_units(&mut self, index: u32) -> (r: Option<u32>)
        requires
            old(self).wf(),
            index < PPMD_NUM_INDEXES,
        ensures
            alloc_only7(*old(self), *final(self)),
            frame7(*old(self), *final(self)),
            final(self).text == old(self).text,
            old(self).free_list@[index as int] != 0 ==> r == Some(old(self).free_list@[index as int])
                && final(self).lo_unit == old(self).lo_unit,
            old(self).free_list@[index as int] == 0 && old(self).hi_unit.wrapping_sub(old(self).lo_unit)
                >= index_units(index as int) * 12 ==> r == Some(old(self).lo_unit)
                && final(self).lo_unit == old(self).lo_unit.wrapping_add((index_units(index as int) * 12) as u32),
    {
        if self.free_list[index as usize] != 0 {
            return Some(self.remove_node(index));
        }
        let num_bytes = self.i2u(index) * UNIT_SIZE;
        let lo = self.lo_unit;
        if self.hi_unit.wrapping_sub(lo) >= num_bytes {
            self.lo_unit = lo.wrapping_add(num_bytes);
            return Some(lo);
        }
        self.alloc_units_rare(index)
    }

    /// Shrinks the block of states at `old_ptr` from `old_nu` to `new_nu` units: moves
    /// the states to a free block of the smaller class if there is one, else gives
    /// back the tail.
    pub fn shrink_units(&mut self, old_ptr: u32, old_nu: u32, new_nu: u32) -> (r: u32)
        requires
            old(self).wf(),
        ensures
            alloc_only7(*old(self), *final(self)),
            frame7(*old(self), *final(self)),
            final(self).lo_unit == old(self).lo_unit,
            final(self).hi_unit == old(self).hi_unit,
            final(self).units_start == old(self).units_start,
            final(self).text == old(self).text,
            ({
                let ok = 1 <= old_nu <= 128 && 1 <= new_nu <= 128;
                let i0 = old(self).units2index@[old_nu - 1];
                let i1 = old(self).units2index@[new_nu - 1];
                &&& !(ok && i0 > i1) ==> r == old_ptr && *final(self) == *old(self)
                &&& ok && i0 > i1 && old(self).free_list@[i1 as int] != 0 ==> r == old(self).free_list@[i1 as int]
                &&& ok && i0 > i1 && old(self).free_list@[i1 as int] == 0 ==> r == old_ptr
            }),
            shrink_filed7(*old(self), *final(self), old_ptr, old_nu, new_nu, r),
    {
        proof {
            reveal(shrink_filed7);
        }
        if !(1 <= old_nu && old_nu <= 128 && 1 <= new_nu && new_nu <= 128) {
            return old_ptr;
        }
        let i0 = self.u2i(old_nu);
        let i1 = self.u2i(new_nu);
        if i0 <= i1 {
            return old_ptr;
        }
        if self.free_list[i1 as usize] != 0 {
            let ghost m0 = self.mem.bytes();
            let ptr = self.remove_node(i1);
            self.mem.copy(old_ptr, ptr, new_nu * UNIT_SIZE);
            let ghost m1 = self.mem.bytes();
            self.insert_node(old_ptr, i0);
            proof {
                let n = new_nu * 12;
                let m = self.mem.bytes();
                if fits(old_ptr, n as nat, m0.len()) && fits(ptr, n as nat, m0.len()) && (ptr + n <= old_ptr || old_ptr + 4 <= ptr) {
                    assert forall|j: int| 0 <= j < n implies #[trigger] m[ptr + j] == m0[old_ptr + j] by {
                        assert(m[ptr + j] == m1[ptr + j]);
                        assert(m1[ptr + j] == m0.subrange(old_ptr as int, old_ptr + n)[j]);
                    }
                }
            }
            return ptr;
        }
        self.split_block(old_ptr, i0, i1);
        old_ptr
    }

    /// Starts the model over: the root context with all 256 symbols at frequency one,
    /// an empty text, empty free lists and the start estimates.
    pub fn restart_model(&mut self)
        requires
            old(self).wf(),
        ensures
            restarted7(*old(self), *final(self)),
    {
        let ghost m_in = self.mem.bytes();
        let mut i: usize = 0;
        while i < PPMD_NUM_INDEXES as usize
            invariant
                self.wf(),
                *self == (Ppmd7 { free_list: self.free_list, ..*old(self) }),
                i <= PPMD_NUM_INDEXES,
                forall|j: int| 0 <= j < i ==> #[trigger] self.free_list@[j] == 0,
            decreases PPMD_NUM_INDEXES - i,
        {
            self.free_list.set(i, 0);
            i = i + 1;
        }
        let hi = self.align_offset + self.size;
        self.text = self.align_offset;
        let us = hi - self.size / 8 / UNIT_SIZE * 7 * UNIT_SIZE;
        self.units_start = us;
        self.lo_unit = us;
        self.glue_count = 0;
        self.order_fall = self.max_order;
        let rl: i32 = if self.max_order < 12 {
            -(self.max_order as i32) - 1
        } else {
            -13
        };
        self.run_length = rl;
        self.init_rl = rl;
        self.prev_success = 0;
        let root = hi - UNIT_SIZE;
        self.hi_unit = root;
        self.min_context = root;
        self.max_context = root;
        self.set_suffix(root, 0);
        let ghost r0 = self.mem.bytes();
        self.set_num_stats(root, 256);
        let ghost r1 = self.mem.bytes();
        self.set_summ_freq(root, 257);
        let ghost r2 = self.mem.bytes();
        self.found_state = us;
        self.lo_unit = us + 128 * UNIT_SIZE;
        self.set_stats(root, us);
        let ghost m1 = self.mem.bytes();
        proof {
            let r = root as int;
            assert(root.wrapping_add(2) == root + 2);
            assert(root.wrapping_add(4) == root + 4);
            assert(root.wrapping_add(8) == root + 8);
            assert(le32(r0, r + 8) == 0);
            assert(r1[r + 8] == r0[r + 8] && r1[r + 9] == r0[r + 9] && r1[r + 10] == r0[r + 10] && r1[r + 11] == r0[r + 11]);
            assert(r2[r + 8] == r1[r + 8] && r2[r + 9] == r1[r + 9] && r2[r + 10] == r1[r + 10] && r2[r + 11] == r1[r + 11]);
            assert(m1[r + 8] == r2[r + 8] && m1[r + 9] == r2[r + 9] && m1[r + 10] == r2[r + 10] && m1[r + 11] == r2[r + 11]);
            assert(le16(r1, r) == 256);
            assert(r2[r] == r1[r] && r2[r + 1] == r1[r + 1]);
            assert(m1[r] == r2[r] && m1[r + 1] == r2[r + 1]);
            assert(le16(r2, r + 2) == 257);
            assert(m1[r + 2] == r2[r + 2] && m1[r + 3] == r2[r + 3]);
            assert(le32(m1, r + 4) == us);
            assert forall|x: int| 0 <= x < r implies #[trigger] m1[x] == m_in[x] by {
                assert(m1[x] == r2[x] && r2[x] == r1[x] && r1[x] == r0[x]);
            }
        }
        let ghost st1 = *self;
        let mut j: u32 = 0;
        while j < 256
            invariant
                frame7(*old(self), *self),
                *self == (Ppmd7 { mem: self.mem, ..st1 }),
                hi == self.align_offset + self.size,
                root == hi - 12,
                us == self.units_start,
                us + 256 * 6 <= root,
                self.mem.bytes().len() == hi,
                j <= 256,
                forall|x: int| 0 <= x < us || root <= x < hi ==> #[trigger] self.mem.bytes()[x] == m1[x],
                forall|x: int| us + 6 * j <= x < root ==> #[trigger] self.mem.bytes()[x] == m1[x],
                forall|x: int| 0 <= x < root ==> #[trigger] m1[x] == m_in[x],
                forall|t: int|
                    0 <= t < j ==> {
                        &&& #[trigger] self.mem.spec_rd8((us + 6 * t) as u32) == t
                        &&& self.mem.spec_rd8((us + 6 * t + 1) as u32) == 1
                        &&& self.mem.spec_rd32((us + 6 * t + 2) as u32) == 0
                    },
            decreases 256 - j,
        {
            let s = us + 6 * j;
            let ghost before = self.mem.bytes();
            let ghost pre = self.mem;
            self.set_sym(s, j as u8);
            let ghost ma = self.mem.bytes();
            self.set_freq(s, 1);
            let ghost mb = self.mem.bytes();
            self.set_successor(s, 0);
            proof {
                let m = self.mem.bytes();
                let si = s as int;
                assert(s.wrapping_add(1) == s + 1);
                assert(s.wrapping_add(2) == s + 2);
                assert(ma[si] == j as u8);
                assert(mb[si] == ma[si] && mb[si + 1] == 1);
                assert(m[si] == mb[si] && m[si + 1] == mb[si + 1]);
                assert(self.mem.spec_rd8(s) == j);
                assert(self.mem.spec_rd8((s + 1) as u32) == 1);
                assert(self.mem.spec_rd32((s + 2) as u32) == 0);
                assert forall|x: int| 0 <= x < us || root <= x < hi implies #[trigger] m[x] == m1[x] by {
                    assert(m[x] == before[x]);
                }
                assert forall|x: int| us + 6 * (j + 1) <= x < root implies #[trigger] m[x] == m1[x] by {
                    assert(m[x] == before[x]);
                }
                assert forall|t: int| 0 <= t < j + 1 implies {
                    &&& #[trigger] self.mem.spec_rd8((us + 6 * t) as u32) == t
                    &&& self.mem.spec_rd8((us + 6 * t + 1) as u32) == 1
                    &&& self.mem.spec_rd32((us + 6 * t + 2) as u32) == 0
                } by {
                    if t < j {
                        let b = us + 6 * t;
                        assert(pre.spec_rd8((us + 6 * t) as u32) == t);
                        assert(pre.spec_rd8((us + 6 * t + 1) as u32) == 1);
                        assert(pre.spec_rd32((us + 6 * t + 2) as u32) == 0);
                        assert(m[b] == before[b]);
                        assert(m[b + 1] == before[b + 1]);
                        assert(m[b + 2] == before[b + 2] && m[b + 3] == before[b + 3] && m[b + 4] == before[b + 4]
                            && m[b + 5] == before[b + 5]);
                    }
                }
            }
            j = j + 1;
        }
        proof {
            let r = root as int;
            let m = self.mem.bytes();
            assert(m[r] == m1[r] && m[r + 1] == m1[r + 1] && m[r + 2] == m1[r + 2] && m[r + 3] == m1[r + 3]);
            assert(m[r + 4] == m1[r + 4] && m[r + 5] == m1[r + 5] && m[r + 6] == m1[r + 6] && m[r + 7] == m1[r + 7]);
            assert(m[r + 8] == m1[r + 8] && m[r + 9] == m1[r + 9] && m[r + 10] == m1[r + 10] && m[r + 11] == m1[r + 11]);
        }
        self.bin_summ = build_bin_summ7();
        self.see = build_see7();
        proof {
            let hi2 = (self.align_offset + self.size) as u32;
            let root2 = (hi2 - 12) as u32;
            assert(hi2 == hi);
            assert(root2 == root);
            assert(self.text == self.align_offset);
            assert(self.hi_unit == root2);
            assert(self.units_start == hi2 - (self.size as int / 8 / 12) * 7 * 12);
            assert(self.lo_unit == self.units_start + 128 * 12);
            assert(self.init_rl == -(if self.max_order < 12 { self.max_order as int } else { 12 }) - 1);
            assert(self.mem.spec_rd16(root2) == 256);
            assert(self.mem.spec_rd16((root2 + 2) as u32) == 257);
            assert(self.mem.spec_rd32((root2 + 4) as u32) == self.units_start);
            assert(self.mem.spec_rd32((root2 + 8) as u32) == 0);
            assert(self.found_state == self.units_start);
            assert(self.order_fall == self.max_order);
            assert(self.prev_success == 0);
            assert(self.glue_count == 0);
            assert(forall|i: int, k: int|
                0 <= i < 25 && 0 <= k < 16 ==> {
                    &&& #[trigger] self.see@[i * 16 + k].summ == super::model::init_see7_summ(i)
                    &&& self.see@[i * 16 + k].shift == 3
                    &&& self.see@[i * 16 + k].count == 4
                });
            assert(self.started());
            assert(self.min_context == root2 && self.max_context == root2);
            assert forall|x: int| 0 <= x < root && !(us <= x < us + 6 * 256) implies #[trigger] self.mem.bytes()[x] == m_in[x] by {
                assert(self.mem.bytes()[x] == m1[x]);
            }
            assert(forall|i: int, k: int| 0 <= i < 128 && 0 <= k < 64 ==> #[trigger] self.bin_summ@[i * 64 + k] == super::model::init_bin7(i, k % 8));
            assert(self.run_length == self.init_rl);
            assert(forall|i: int| 0 <= i < PPMD_NUM_INDEXES ==> #[trigger] self.free_list@[i] == 0);
            assert(forall|t: int|
                0 <= t < 256 ==> {
                    &&& #[trigger] self.mem.spec_rd8((self.units_start + 6 * t) as u32) == t
                    &&& self.mem.spec_rd8((self.units_start + 6 * t + 1) as u32) == 1
                    &&& self.mem.spec_rd32((self.units_start + 6 * t + 2) as u32) == 0
                });
        }
    }

    /// Builds the model around `rc`, with its tables, its memory and its start state.
    pub fn construct(rc: RC, max_order: u32, mem_size: u32) -> (p: Self)
        requires
            ppmd7_model_params_valid(max_order, mem_size),
        ensures
            p.wf(),
            p.started(),
            p.rc == rc,
            p.max_order == max_order,
            p.size == mem_size,
    {
        let (index2units, units2index) = build_unit_tables();
        let ns2bs_index = build_ns2bs_index();
        let ns2index = build_ns2index7();
        let align_offset = (4u32.wrapping_sub(mem_size)) % 4;
        let mut free_list: Vec<u32> = Vec::new();
        let mut i: u32 = 0;
        while i < PPMD_NUM_INDEXES
            invariant
                i <= PPMD_NUM_INDEXES,
                free_list.len() == i,
            decreases PPMD_NUM_INDEXES - i,
        {
            free_list.push(0);
            i = i + 1;
        }
        let mem = Arena::new((align_offset as usize) + (mem_size as usize));
        let mut p = Ppmd7 {
            min_context: 0,
            max_context: 0,
            found_state: 0,
            order_fall: 0,
            init_esc: 0,
            prev_success: 0,
            max_order,
            hi_bits_flag: 0,
            run_length: 0,
            init_rl: 0,
            size: mem_size,
            glue_count: 0,
            align_offset,
            lo_unit: 0,
            hi_unit: 0,
            text: 0,
            units_start: 0,
            index2units,
            units2index,
            free_list,
            ns2bs_index,
            ns2index,
            dummy_see: See { summ: 0, shift: PPMD_PERIOD_BITS as u8, count: 64 },
            see: build_see7(),
            bin_summ: build_bin_summ7(),
            mem,
            rc,
        };
        p.restart_model();
        p
    }
}

} // verus!

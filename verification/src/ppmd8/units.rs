//! The allocator of the PPMd8 model: blocks of 12-byte units in lists by size class,
//! split, glued together and carved from the free area between the text and the
//! contexts.
//!
//! Blocks are read from the model memory, which a corrupt stream can make
//! inconsistent. Where the bookkeeping read back is out of range (a unit count of
//! zero or above 128, a size class past the last) the functions leave the block
//! alone, and walks along the lists stop after as many steps as the memory has
//! bytes; on a consistent model neither ever happens.

use vstd::prelude::*;

use super::model::Ppmd8;
use super::model::zeros_u32;
use super::arena::{fits, same_outside};
use super::{EMPTY_NODE, PPMD_NUM_INDEXES, UNIT_SIZE};

verus! {

/// Where the walk along a free list writes the link to the next block it keeps: the
/// head of the glued list, a slot of the free list table, or the `next` field of a
/// block in memory.
pub enum Link {
    Head,
    List(usize),
    Mem(u32),
}

/// The model `b` is `a` with only its memory, free lists, stamps and the pointers of
/// the free area changed.
pub open spec fn alloc_frame<RC>(a: Ppmd8<RC>, b: Ppmd8<RC>) -> bool {
    &&& b.wf()
    &&& b.rc == a.rc
    &&& b.max_order == a.max_order
    &&& b.size == a.size
    &&& b.align_offset == a.align_offset
    &&& b.restore_method == a.restore_method
    &&& b.min_context == a.min_context
    &&& b.max_context == a.max_context
    &&& b.found_state == a.found_state
    &&& b.order_fall == a.order_fall
    &&& b.init_esc == a.init_esc
    &&& b.prev_success == a.prev_success
    &&& b.run_length == a.run_length
    &&& b.init_rl == a.init_rl
    &&& b.text == a.text
    &&& b.see == a.see
    &&& b.bin_summ == a.bin_summ
    &&& b.dummy_see == a.dummy_see
}

/// Where `shrink_units` leaves a block of `old_nu` units at `old_ptr` cut down to
/// `new_nu`: at the head of the free list of the smaller size class where that list
/// has a block, else where it was.
pub open spec fn shrink_target<RC>(p: Ppmd8<RC>, old_ptr: u32, old_nu: u32, new_nu: u32) -> u32 {
    if shrink_moves(p, old_nu, new_nu) {
        p.free_list@[p.units2index@[new_nu - 1] as int]
    } else {
        old_ptr
    }
}

/// Whether `shrink_units` moves a block of `old_nu` units cut down to `new_nu`: both
/// counts are in range, the smaller one has a smaller size class, and the free list
/// of that class has a block.
pub open spec fn shrink_moves<RC>(p: Ppmd8<RC>, old_nu: u32, new_nu: u32) -> bool {
    let i0 = p.units2index@[old_nu - 1];
    let i1 = p.units2index@[new_nu - 1];
    1 <= old_nu <= 128 && 1 <= new_nu <= 128 && i0 > i1 && p.free_list@[i1 as int] != 0
}

/// `b` is `a` after `shrink_units` cut the block at `old_ptr` from `old_nu` to
/// `new_nu` units and returned `r`: nothing changes unless both counts are in range
/// and the size class gets smaller; where the states move, the smaller block leaves
/// its list and the old one heads the list of its class; else the tail of the old
/// block goes to the free lists.
#[verifier::opaque]
pub open spec fn shrink_filed<RC>(a: Ppmd8<RC>, b: Ppmd8<RC>, old_ptr: u32, old_nu: u32, new_nu: u32, r: u32) -> bool {
    let i0 = a.units2index@[old_nu - 1] as u32;
    let i1 = a.units2index@[new_nu - 1] as u32;
    let shrinks = 1 <= old_nu <= 128 && 1 <= new_nu <= 128 && i0 > i1;
    &&& !shrinks ==> b == a
    &&& shrinks && shrink_moves(a, old_nu, new_nu) ==> {
        &&& b.free_list@ == a.free_list@.update(i1 as int, a.mem.spec_rd32(r.wrapping_add(4))).update(i0 as int, old_ptr)
        &&& fits(old_ptr, 12, a.mem.bytes().len()) ==> {
            &&& b.mem.spec_rd32(old_ptr) == EMPTY_NODE
            &&& b.mem.spec_rd32(old_ptr.wrapping_add(4)) == a.free_list@[i0 as int]
            &&& b.mem.spec_rd32(old_ptr.wrapping_add(8)) == super::index_units(i0 as int)
        }
    }
    &&& shrinks && !shrink_moves(a, old_nu, new_nu) ==> split_done(a, b, old_ptr, i0, i1)
}

/// The bytes of the block of `old_nu` units that `shrink_units` may write to when it
/// cuts it down to `new_nu` units; none where either count is out of range.
pub open spec fn old_block_bytes<RC>(p: Ppmd8<RC>, old_nu: u32, new_nu: u32) -> int {
    if 1 <= old_nu <= 128 && 1 <= new_nu <= 128 {
        super::index_units(p.units2index@[old_nu - 1] as int) * 12
    } else {
        0
    }
}

/// `b` is `a` after the block at `node` went to the head of the list of size class
/// `index`: the list head and count changed, and where the block lies in the memory,
/// its header marks it free, links it to the old head and holds its size.
pub open spec fn node_inserted<RC>(a: Ppmd8<RC>, b: Ppmd8<RC>, node: u32, index: u32) -> bool {
    &&& b.free_list@ == a.free_list@.update(index as int, node)
    &&& b.stamps@ == a.stamps@.update(index as int, a.stamps@[index as int].wrapping_add(1))
    &&& fits(node, 12, a.mem.bytes().len()) ==> {
        &&& b.mem.spec_rd32(node) == EMPTY_NODE
        &&& b.mem.spec_rd32(node.wrapping_add(4)) == a.free_list@[index as int]
        &&& b.mem.spec_rd32(node.wrapping_add(8)) == super::index_units(index as int)
    }
}

/// `b` is `a` after the block `node` at the head of the list of size class `index`
/// was taken: the head moved to the block it links to, and the count fell.
pub open spec fn node_removed<RC>(a: Ppmd8<RC>, b: Ppmd8<RC>, index: u32, node: u32) -> bool {
    &&& node == a.free_list@[index as int]
    &&& b.mem == a.mem
    &&& b.free_list@ == a.free_list@.update(index as int, a.mem.spec_rd32(node.wrapping_add(4)))
    &&& b.stamps@ == a.stamps@.update(index as int, a.stamps@[index as int].wrapping_sub(1))
}

/// `b` is `a` after the tail of a block of size class `old_index` at `ptr`, beyond its
/// first `index2units[new_index]` units, went back to the free lists: whole into the
/// list of its size where it has one, else cut into a block of the next smaller class
/// and the few units that remain, each into its list.
pub open spec fn split_done<RC>(a: Ppmd8<RC>, b: Ppmd8<RC>, ptr: u32, old_index: u32, new_index: u32) -> bool {
    let nu = super::index_units(old_index as int) - super::index_units(new_index as int);
    let start = ptr.wrapping_add((super::index_units(new_index as int) * 12) as u32);
    units_filed(a, b, start, nu)
}

/// `b` is `a` after a free block of `nu` units at `node`, between 1 and 128, went
/// into the free lists: whole into the list of its size where there is one, else
/// as a block of the next smaller size class, whose list it heads, and the units
/// beyond it, put first into the list of their size.
pub open spec fn units_filed<RC>(a: Ppmd8<RC>, b: Ppmd8<RC>, node: u32, nu: int) -> bool {
    let i = a.units2index@[nu - 1] as int;
    if super::index_units(i) == nu {
        node_inserted(a, b, node, i as u32)
    } else {
        let k = super::index_units(i - 1);
        let tail = node.wrapping_add((k * 12) as u32);
        exists|mid: Ppmd8<RC>|
            node_inserted(a, mid, tail, (nu - k - 1) as u32) && #[trigger] node_inserted(mid, b, node, (i - 1) as u32)
    }
}

/// The areas of the model memory outside the free lists are the same in `a` and
/// `b`: its size, the free area and the text.
pub open spec fn same_areas<RC>(a: Ppmd8<RC>, b: Ppmd8<RC>) -> bool {
    &&& b.size == a.size
    &&& b.lo_unit == a.lo_unit
    &&& b.hi_unit == a.hi_unit
    &&& b.units_start == a.units_start
    &&& b.text == a.text
}

/// The free lists are stacks: a block put into a list is the first one taken out of
/// it, and taking it out leaves the list's head and count as they were before.
pub proof fn law_free_list_last_in_first_out<RC>(
    a: Ppmd8<RC>,
    b: Ppmd8<RC>,
    c: Ppmd8<RC>,
    node: u32,
    index: u32,
    taken: u32,
)
    requires
        a.wf(),
        index < PPMD_NUM_INDEXES,
        fits(node, 12, a.mem.bytes().len()),
        node_inserted(a, b, node, index),
        node_removed(b, c, index, taken),
    ensures
        taken == node,
        c.free_list@ == a.free_list@,
        c.stamps@ == a.stamps@,
{
    assert(c.free_list@ =~= a.free_list@);
    assert(c.stamps@ =~= a.stamps@);
}

impl<RC> Ppmd8<RC> {
    /// The number of units of size class `i`.
    pub fn i2u(&self, i: u32) -> (n: u32)
        requires
            self.wf(),
            i < PPMD_NUM_INDEXES,
        ensures
            n as int == super::index_units(i as int),
            1 <= n <= 128,
    {
        self.index2units[i as usize] as u32
    }

    /// The size class for `nu` units, when `nu` is between 1 and 128.
    pub fn u2i(&self, nu: u32) -> (i: Option<u32>)
        requires
            self.wf(),
        ensures
            1 <= nu <= 128 ==> i == Some(self.units2index@[nu - 1] as u32),
            !(1 <= nu <= 128) ==> i is None,
            i matches Some(x) ==> x < PPMD_NUM_INDEXES,
    {
        if 1 <= nu && nu <= 128 {
            Some(self.units2index[(nu - 1) as usize] as u32)
        } else {
            None
        }
    }

    /// Puts the block at `node` at the head of the list of size class `index`.
    pub fn insert_node(&mut self, node: u32, index: u32)
        requires
            old(self).wf(),
            index < PPMD_NUM_INDEXES,
        ensures
            alloc_frame(*old(self), *final(self)),
            node_inserted(*old(self), *final(self), node, index),
            node as int + 12 <= 0x1_0000_0000 ==> same_outside(old(self).mem.bytes(), final(self).mem.bytes(), node as int, 12),
            final(self).lo_unit == old(self).lo_unit,
            final(self).hi_unit == old(self).hi_unit,
            final(self).units_start == old(self).units_start,
            final(self).glue_count == old(self).glue_count,
    {
        let ghost m0 = self.mem.bytes();
        let next = self.free_list[index as usize];
        let nu = self.i2u(index);
        self.mem.wr32(node, EMPTY_NODE);
        let ghost m1 = self.mem.bytes();
        self.mem.wr32(node.wrapping_add(4), next);
        let ghost m2 = self.mem.bytes();
        self.mem.wr32(node.wrapping_add(8), nu);
        proof {
            let m3 = self.mem.bytes();
            if fits(node, 12, m0.len()) {
                let n = node as int;
                assert(node.wrapping_add(4) as int == n + 4);
                assert(node.wrapping_add(8) as int == n + 8);
                assert(m3[n] == m2[n] && m3[n + 1] == m2[n + 1] && m3[n + 2] == m2[n + 2] && m3[n + 3] == m2[n + 3]);
                assert(m2[n] == m1[n] && m2[n + 1] == m1[n + 1] && m2[n + 2] == m1[n + 2] && m2[n + 3] == m1[n + 3]);
                assert(m3[n + 4] == m2[n + 4] && m3[n + 5] == m2[n + 5] && m3[n + 6] == m2[n + 6] && m3[n + 7] == m2[n + 7]);
            }
        }
        self.free_list.set(index as usize, node);
        let st = self.stamps[index as usize].wrapping_add(1);
        self.stamps.set(index as usize, st);
    }

    /// Takes the block at the head of the list of size class `index`.
    pub fn remove_node(&mut self, index: u32) -> (node: u32)
        requires
            old(self).wf(),
            index < PPMD_NUM_INDEXES,
        ensures
            alloc_frame(*old(self), *final(self)),
            node_removed(*old(self), *final(self), index, node),
            final(self).lo_unit == old(self).lo_unit,
            final(self).hi_unit == old(self).hi_unit,
            final(self).units_start == old(self).units_start,
            final(self).glue_count == old(self).glue_count,
    {
        let node = self.free_list[index as usize];
        let next = self.mem.rd32(node.wrapping_add(4));
        self.free_list.set(index as usize, next);
        let st = self.stamps[index as usize].wrapping_sub(1);
        self.stamps.set(index as usize, st);
        node
    }

    /// Gives back the part of a block of size class `old_index` beyond its first
    /// `index2units[new_index]` units.
    pub fn split_block(&mut self, ptr: u32, old_index: u32, new_index: u32)
        requires
            old(self).wf(),
            new_index < old_index < PPMD_NUM_INDEXES,
        ensures
            alloc_frame(*old(self), *final(self)),
            ptr as int + super::index_units(old_index as int) * 12 <= 0x1_0000_0000 ==> same_outside(
                old(self).mem.bytes(),
                final(self).mem.bytes(),
                ptr + super::index_units(new_index as int) * 12,
                (super::index_units(old_index as int) - super::index_units(new_index as int)) * 12,
            ),
            split_done(*old(self), *final(self), ptr, old_index, new_index),
            final(self).lo_unit == old(self).lo_unit,
            final(self).hi_unit == old(self).hi_unit,
            final(self).units_start == old(self).units_start,
            final(self).glue_count == old(self).glue_count,
    {
        proof {
            assert(super::index_units(new_index as int) < super::index_units(old_index as int));
        }
        let ghost m0 = self.mem.bytes();
        let ghost start = ptr + super::index_units(new_index as int) * 12;
        let ghost len = (super::index_units(old_index as int) - super::index_units(new_index as int)) * 12;
        let ghost small = ptr as int + super::index_units(old_index as int) * 12 <= 0x1_0000_0000;
        let nu = self.i2u(old_index) - self.i2u(new_index);
        let ghost ptr_in = ptr;
        let ptr = ptr.wrapping_add(self.i2u(new_index) * UNIT_SIZE);
        proof {
            if small {
                assert(ptr as int == start);
                assert(len == nu * 12);
            }
        }
        let mut index = self.u2i(nu).unwrap_or(0);
        if self.i2u(index) != nu {
            if index >= 1 {
                index = index - 1;
                let k = self.i2u(index);
                proof {
                    assert(self.units2index@[nu - 1] == index + 1);
                    assert(k < nu);
                }
                let rest = nu.wrapping_sub(k).wrapping_sub(1);
                proof {
                    assert(rest == nu - k - 1);
                    assert(rest < PPMD_NUM_INDEXES);
                }
                if rest < PPMD_NUM_INDEXES {
                    let tail = ptr.wrapping_add(k * UNIT_SIZE);
                    proof {
                        if small {
                            assert(tail as int == start + 12 * k);
                        }
                    }
                    self.insert_node(tail, rest);
                }
            }
        }
        let ghost mid = *self;
        let ghost m1 = self.mem.bytes();
        self.insert_node(ptr, index);
        proof {
            let gi = old(self).units2index@[nu - 1] as int;
            let gnu = super::index_units(old_index as int) - super::index_units(new_index as int);
            assert(gnu == nu);
            assert(ptr == ptr_in.wrapping_add((super::index_units(new_index as int) * 12) as u32));
            if super::index_units(gi) == nu {
                assert(index == gi);
                assert(mid == *old(self));
                assert(node_inserted(*old(self), *self, ptr, gi as u32));
            } else {
                let k = super::index_units(gi - 1);
                assert(index == gi - 1);
                assert(node_inserted(*old(self), mid, ptr.wrapping_add((k * 12) as u32), (nu - k - 1) as u32));
                assert(node_inserted(mid, *self, ptr, (gi - 1) as u32));
            }
        }
        proof {
            if small {
                let m = self.mem.bytes();
                assert forall|j: int| 0 <= j < m0.len() && !(start <= j < start + len) implies #[trigger] m[j] == m0[j] by {
                    assert(m[j] == m1[j]);
                }
            }
        }
    }

    /// Writes `v` where `link` points.
    fn set_link(&mut self, link: &Link, head: &mut u32, v: u32)
        requires
            old(self).wf(),
            *link matches Link::List(i) ==> i < PPMD_NUM_INDEXES,
        ensures
            alloc_frame(*old(self), *final(self)),
            final(self).lo_unit == old(self).lo_unit,
            final(self).hi_unit == old(self).hi_unit,
            final(self).units_start == old(self).units_start,
            final(self).glue_count == old(self).glue_count,
            final(self).stamps == old(self).stamps,
            !(link is List) ==> final(self).free_list == old(self).free_list,
            *link is Head ==> *final(head) == v && *final(self) == *old(self),
            !(*link is Head) ==> *final(head) == *old(head),
            *link matches Link::List(i) ==> final(self).free_list@ == old(self).free_list@.update(i as int, v)
                && *final(self) == (Ppmd8 { free_list: final(self).free_list, ..*old(self) }),
            *link matches Link::Mem(off) ==> fits(off, 4, old(self).mem.bytes().len()) ==> final(self).mem.spec_rd32(off) == v
                && same_outside(old(self).mem.bytes(), final(self).mem.bytes(), off as int, 4),
            *link matches Link::Mem(off) ==> !fits(off, 4, old(self).mem.bytes().len()) ==> final(self).mem.bytes()
                == old(self).mem.bytes(),
    {
        match link {
            Link::Head => {
                *head = v;
            },
            Link::List(i) => {
                self.free_list.set(*i, v);
            },
            Link::Mem(off) => {
                self.mem.wr32(*off, v);
            },
        }
    }

    /// Takes all free blocks out of their lists, merges each with the free blocks
    /// that follow it in memory, and chains them into one list, whose head it returns.
    /// Every free list is empty afterwards.
    pub fn glue_blocks(&mut self) -> (head: u32)
        requires
            old(self).wf(),
        ensures
            alloc_frame(*old(self), *final(self)),
            final(self).lo_unit == old(self).lo_unit,
            final(self).hi_unit == old(self).hi_unit,
            final(self).units_start == old(self).units_start,
            final(self).glue_count == old(self).glue_count,
            final(self).stamps == old(self).stamps,
            forall|j: int| 0 <= j < PPMD_NUM_INDEXES ==> #[trigger] final(self).free_list@[j] == 0,
            (forall|j: int| 0 <= j < PPMD_NUM_INDEXES ==> #[trigger] old(self).free_list@[j] == 0) ==> head == 0,
    {
        let ghost none_free = forall|j: int| 0 <= j < PPMD_NUM_INDEXES ==> #[trigger] old(self).free_list@[j] == 0;
        let mut head: u32 = 0;
        let mut prev = Link::Head;
        let mut i: usize = 0;
        while i < PPMD_NUM_INDEXES as usize
            invariant
                alloc_frame(*old(self), *self),
                self.lo_unit == old(self).lo_unit,
                self.hi_unit == old(self).hi_unit,
                self.units_start == old(self).units_start,
                self.glue_count == old(self).glue_count,
                self.stamps == old(self).stamps,
                i <= PPMD_NUM_INDEXES,
                !(prev is List),
                forall|j: int| 0 <= j < i ==> #[trigger] self.free_list@[j] == 0,
                none_free == (forall|j: int| 0 <= j < PPMD_NUM_INDEXES ==> #[trigger] old(self).free_list@[j] == 0),
                none_free ==> prev is Head && head == 0 && forall|j: int| i <= j < PPMD_NUM_INDEXES ==> #[trigger] self.free_list@[j] == 0,
            decreases PPMD_NUM_INDEXES - i,
        {
            let mut next = self.free_list[i];
            self.free_list.set(i, 0);
            let mut fuel: usize = self.mem.len();
            while next != 0 && fuel > 0
                invariant
                    alloc_frame(*old(self), *self),
                    self.lo_unit == old(self).lo_unit,
                    self.hi_unit == old(self).hi_unit,
                    self.units_start == old(self).units_start,
                    self.glue_count == old(self).glue_count,
                    self.stamps == old(self).stamps,
                    i < PPMD_NUM_INDEXES,
                    !(prev is List),
                    forall|j: int| 0 <= j <= i ==> #[trigger] self.free_list@[j] == 0,
                    none_free == (forall|j: int| 0 <= j < PPMD_NUM_INDEXES ==> #[trigger] old(self).free_list@[j] == 0),
                    none_free ==> prev is Head && head == 0 && next == 0 && forall|j: int| i <= j < PPMD_NUM_INDEXES ==> #[trigger] self.free_list@[j] == 0,
                decreases fuel,
            {
                fuel = fuel - 1;
                let node = next;
                let mut nu = self.mem.rd32(node.wrapping_add(8));
                self.set_link(&prev, &mut head, next);
                next = self.mem.rd32(node.wrapping_add(4));
                if nu != 0 {
                    prev = Link::Mem(node.wrapping_add(4));
                    let mut fuel2: usize = self.mem.len();
                    while fuel2 > 0
                        invariant
                            alloc_frame(*old(self), *self),
                            self.lo_unit == old(self).lo_unit,
                            self.hi_unit == old(self).hi_unit,
                            self.units_start == old(self).units_start,
                            self.glue_count == old(self).glue_count,
                            self.stamps == old(self).stamps,
                            forall|j: int| 0 <= j <= i ==> #[trigger] self.free_list@[j] == 0,
                        decreases fuel2,
                    {
                        fuel2 = fuel2 - 1;
                        let node2 = node.wrapping_add(nu.wrapping_mul(UNIT_SIZE));
                        if self.mem.rd32(node2) != EMPTY_NODE {
                            break;
                        }
                        nu = nu.wrapping_add(self.mem.rd32(node2.wrapping_add(8)));
                        self.mem.wr32(node.wrapping_add(8), nu);
                        self.mem.wr32(node2.wrapping_add(8), 0);
                    }
                }
            }
            i = i + 1;
        }
        self.set_link(&prev, &mut head, 0);
        head
    }

    /// Sorts the glued blocks of the list at `n` back into the free lists, cutting
    /// each into blocks of the size classes.
    pub fn fill_list(&mut self, n: u32)
        requires
            old(self).wf(),
        ensures
            alloc_frame(*old(self), *final(self)),
            final(self).lo_unit == old(self).lo_unit,
            final(self).hi_unit == old(self).hi_unit,
            final(self).units_start == old(self).units_start,
            final(self).glue_count == old(self).glue_count,
            n == 0 ==> *final(self) == *old(self),
            ({
                let nu = old(self).mem.spec_rd32(n.wrapping_add(8));
                n != 0 && old(self).mem.bytes().len() > 0 && 1 <= nu <= 128 && old(self).mem.spec_rd32(n.wrapping_add(4)) == 0
                    ==> units_filed(*old(self), *final(self), n, nu as int)
            }),
    {
        let ghost n_in = n;
        let ghost nu_in = self.mem.spec_rd32(n.wrapping_add(8));
        let ghost single = n != 0 && self.mem.bytes().len() > 0 && 1 <= nu_in <= 128 && self.mem.spec_rd32(n.wrapping_add(4))
            == 0;
        let ghost mut fresh = true;
        let mut n = n;
        let mut fuel: usize = self.mem.len();
        while n != 0 && fuel > 0
            invariant
                alloc_frame(*old(self), *self),
                self.lo_unit == old(self).lo_unit,
                self.hi_unit == old(self).hi_unit,
                self.units_start == old(self).units_start,
                self.glue_count == old(self).glue_count,
                fresh ==> *self == *old(self) && n == n_in && fuel == old(self).mem.bytes().len(),
                nu_in == old(self).mem.spec_rd32(n_in.wrapping_add(8)),
                single == (n_in != 0 && old(self).mem.bytes().len() > 0 && 1 <= nu_in <= 128 && old(self).mem.spec_rd32(
                    n_in.wrapping_add(4),
                ) == 0),
                !fresh && single ==> n == 0 && units_filed(*old(self), *self, n_in, nu_in as int),
                !fresh ==> n_in != 0,
            decreases fuel,
        {
            let ghost was_fresh = fresh;
            proof {
                fresh = false;
            }
            fuel = fuel - 1;
            let mut node = n;
            let mut nu = self.mem.rd32(node.wrapping_add(8));
            n = self.mem.rd32(node.wrapping_add(4));
            if nu == 0 {
                continue;
            }
            let ghost pre = *self;
            let ghost nu0 = nu;
            let ghost node0 = node;
            while nu > 128
                invariant
                    alloc_frame(*old(self), *self),
                    self.lo_unit == old(self).lo_unit,
                    self.hi_unit == old(self).hi_unit,
                    self.units_start == old(self).units_start,
                    self.glue_count == old(self).glue_count,
                    nu0 <= 128 ==> *self == pre && nu == nu0 && node == node0,
                decreases nu,
            {
                self.insert_node(node, PPMD_NUM_INDEXES - 1);
                nu = nu - 128;
                node = node.wrapping_add(128 * UNIT_SIZE);
            }
            let ghost mid = *self;
            let mut index = self.u2i(nu).unwrap_or(0);
            if self.i2u(index) != nu && index >= 1 {
                index = index - 1;
                let k = self.i2u(index);
                let rest = nu.wrapping_sub(k).wrapping_sub(1);
                proof {
                    assert(self.units2index@[nu - 1] == index + 1);
                    assert(rest == nu - k - 1);
                }
                if rest < PPMD_NUM_INDEXES {
                    self.insert_node(node.wrapping_add(k * UNIT_SIZE), rest);
                }
                proof {
                    mid = *self;
                }
            }
            let ghost before_last = *self;
            self.insert_node(node, index);
            proof {
                if was_fresh && single {
                    let gi = old(self).units2index@[nu - 1] as int;
                    if super::index_units(gi) == nu {
                        assert(index == gi);
                        assert(before_last == *old(self));
                        assert(node_inserted(*old(self), *self, n_in, gi as u32));
                    } else {
                        let k = super::index_units(gi - 1);
                        assert(index == gi - 1);
                        assert(node_inserted(*old(self), mid, n_in.wrapping_add((k * 12) as u32), (nu - k - 1) as u32));
                        assert(node_inserted(mid, *self, n_in, (gi - 1) as u32));
                    }
                }
            }
        }
    }

    /// Glues the free blocks together and sorts them back into the lists; marks the
    /// start of the free area so that no glued block runs into it.
    pub fn glue_free_blocks(&mut self)
        requires
            old(self).wf(),
        ensures
            alloc_frame(*old(self), *final(self)),
            final(self).lo_unit == old(self).lo_unit,
            final(self).hi_unit == old(self).hi_unit,
            final(self).units_start == old(self).units_start,
            final(self).glue_count == 0x2000,
            (forall|j: int| 0 <= j < PPMD_NUM_INDEXES ==> #[trigger] old(self).free_list@[j] == 0) ==> forall|j: int|
                0 <= j < PPMD_NUM_INDEXES ==> #[trigger] final(self).free_list@[j] == 0 && final(self).stamps@[j] == 0,
    {
        self.glue_count = 0x2000;
        self.stamps = zeros_u32(PPMD_NUM_INDEXES as usize);
        if self.lo_unit != self.hi_unit {
            self.mem.wr32(self.lo_unit, 0);
        }
        let n = self.glue_blocks();
        self.fill_list(n);
    }

    /// Finds a block of size class `index` when the list and the free area are empty:
    /// after a glue, in a larger list (splitting it), or below the contexts.
    ///
    /// Where no glue is due, the block is the head of the first nonempty list of a
    /// larger class, or else is carved from below the contexts where the gap above the
    /// text leaves room; a glue then comes one step closer.
    pub fn alloc_units_rare(&mut self, index: u32) -> (r: Option<u32>)
        requires
            old(self).wf(),
            index < PPMD_NUM_INDEXES,
        ensures
            alloc_frame(*old(self), *final(self)),
            final(self).lo_unit == old(self).lo_unit,
            final(self).hi_unit == old(self).hi_unit,
            old(self).glue_count != 0 ==> ({
                let fl = old(self).free_list@;
                let nb = super::index_units(index as int) * 12;
                if exists|i: int| index < i < PPMD_NUM_INDEXES && #[trigger] fl[i] != 0 {
                    exists|i: int|
                        index < i < PPMD_NUM_INDEXES && #[trigger] fl[i] != 0 && r == Some(fl[i]) && forall|j: int|
                            index < j < i ==> #[trigger] fl[j] == 0
                } else {
                    &&& final(self).glue_count == old(self).glue_count.wrapping_sub(1)
                    &&& old(self).units_start.wrapping_sub(old(self).text) > nb ==> r == Some(final(self).units_start)
                        && final(self).units_start == old(self).units_start.wrapping_sub(nb as u32)
                    &&& old(self).units_start.wrapping_sub(old(self).text) <= nb ==> r is None
                }
            }),
    {
        let ghost glued = self.glue_count == 0;
        if self.glue_count == 0 {
            self.glue_free_blocks();
            if self.free_list[index as usize] != 0 {
                return Some(self.remove_node(index));
            }
        }
        let mut i = index;
        loop
            invariant_except_break
                !glued ==> forall|j: int| index < j <= i ==> #[trigger] old(self).free_list@[j] == 0,
            invariant
                alloc_frame(*old(self), *self),
                self.lo_unit == old(self).lo_unit,
                self.hi_unit == old(self).hi_unit,
                index <= i < PPMD_NUM_INDEXES,
                glued == (old(self).glue_count == 0),
                !glued ==> *self == *old(self),
            ensures
                alloc_frame(*old(self), *self),
                self.lo_unit == old(self).lo_unit,
                self.hi_unit == old(self).hi_unit,
                index < i < PPMD_NUM_INDEXES,
                !glued ==> *self == *old(self),
                !glued ==> old(self).free_list@[i as int] != 0,
                !glued ==> forall|j: int| index < j < i ==> #[trigger] old(self).free_list@[j] == 0,
            decreases PPMD_NUM_INDEXES - i,
        {
            i = i + 1;
            if i == PPMD_NUM_INDEXES {
                let num_bytes = self.i2u(index) * UNIT_SIZE;
                let us = self.units_start;
                self.glue_count = self.glue_count.wrapping_sub(1);
                return if us.wrapping_sub(self.text) > num_bytes {
                    self.units_start = us.wrapping_sub(num_bytes);
                    Some(self.units_start)
                } else {
                    None
                };
            }
            if self.free_list[i as usize] != 0 {
                break;
            }
        }
        let block = self.remove_node(i);
        self.split_block(block, i, index);
        proof {
            if !glued {
                assert(old(self).free_list@[i as int] != 0);
            }
        }
        Some(block)
    }

    /// A block of size class `index`: from its list, from the free area, or as
    /// `alloc_units_rare` finds one.
    pub fn alloc_units(&mut self, index: u32) -> (r: Option<u32>)
        requires
            old(self).wf(),
            index < PPMD_NUM_INDEXES,
        ensures
            alloc_frame(*old(self), *final(self)),
            old(self).free_list@[index as int] != 0 ==> r == Some(old(self).free_list@[index as int]) && node_removed(
                *old(self),
                *final(self),
                index,
                old(self).free_list@[index as int],
            ) && same_areas(*old(self), *final(self)),
            old(self).free_list@[index as int] == 0 && old(self).hi_unit.wrapping_sub(old(self).lo_unit)
                >= super::index_units(index as int) * UNIT_SIZE ==> r == Some(old(self).lo_unit)
                && final(self).lo_unit == old(self).lo_unit.wrapping_add(
                (super::index_units(index as int) * UNIT_SIZE) as u32,
            ),
    {
        if self.free_list[index as usize] != 0 {
            return Some(self.remove_node(index));
        }
        let num_bytes = self.i2u(index) * UNIT_SIZE;
        let lo = self.lo_unit;
        if self.hi_unit.wrapping_sub(lo) >= num_bytes {
            self.lo_unit = lo.wrapping_add(num_bytes);
            return Some(lo);
        }
        self.alloc_units_rare(index)
    }

    /// Shrinks the block of states at `old_ptr` from `old_nu` to `new_nu` units: moves
    /// the states to a smaller free block if there is one, else gives back the tail.
    pub fn shrink_units(&mut self, old_ptr: u32, old_nu: u32, new_nu: u32) -> (r: u32)
        requires
            old(self).wf(),
        ensures
            alloc_frame(*old(self), *final(self)),
            r == shrink_target(*old(self), old_ptr, old_nu, new_nu),
            ({
                let m0 = old(self).mem.bytes();
                let m = final(self).mem.bytes();
                let blk = old_block_bytes(*old(self), old_nu, new_nu);
                old_ptr + blk <= 0x1_0000_0000 ==> forall|x: int|
                    0 <= x < m0.len() && !(old_ptr <= x < old_ptr + blk) && !(r <= x < r + new_nu * 12) ==> #[trigger] m[x]
                        == m0[x]
            }),
            ({
                let m0 = old(self).mem.bytes();
                let m = final(self).mem.bytes();
                let ok = 1 <= old_nu <= 128 && 1 <= new_nu <= 128;
                let n = new_nu * 12;
                ok && old_ptr + old_block_bytes(*old(self), old_nu, new_nu) <= m0.len() && r + n <= m0.len() && (shrink_moves(
                    *old(self),
                    old_nu,
                    new_nu,
                ) ==> (r + n <= old_ptr || old_ptr + 12 <= r)) ==> forall|j: int| 0 <= j < n ==> #[trigger] m[r + j] == m0[old_ptr + j]
            }),
            final(self).lo_unit == old(self).lo_unit,
            final(self).hi_unit == old(self).hi_unit,
            final(self).units_start == old(self).units_start,
            final(self).glue_count == old(self).glue_count,
            shrink_filed(*old(self), *final(self), old_ptr, old_nu, new_nu, r),
    {
        proof {
            reveal(shrink_filed);
        }
        let i0 = match self.u2i(old_nu) {
            Some(i) => i,
            None => return old_ptr,
        };
        let i1 = match self.u2i(new_nu) {
            Some(i) => i,
            None => return old_ptr,
        };
        if i0 <= i1 {
            return old_ptr;
        }
        let ghost m0 = self.mem.bytes();
        proof {
            assert(super::index_units(i1 as int) >= new_nu);
            assert(super::index_units(i1 as int) < super::index_units(i0 as int));
        }
        if self.free_list[i1 as usize] != 0 {
            let ptr = self.remove_node(i1);
            self.mem.copy(old_ptr, ptr, new_nu * UNIT_SIZE);
            let ghost m1 = self.mem.bytes();
            self.insert_node(old_ptr, i0);
            proof {
                let n = new_nu * 12;
                let m = self.mem.bytes();
                let blk = super::index_units(i0 as int) * 12;
                if old_ptr + blk <= 0x1_0000_0000 {
                    assert forall|x: int|
                        0 <= x < m0.len() && !(old_ptr <= x < old_ptr + blk) && !(ptr <= x < ptr + n) implies #[trigger] m[x]
                            == m0[x] by {
                        assert(m[x] == m1[x]);
                        if fits(old_ptr, n as nat, m0.len()) && fits(ptr, n as nat, m0.len()) {
                            if x < ptr {
                                assert(m1[x] == m0.subrange(0, ptr as int)[x]);
                            } else {
                                assert(m1[x] == m0.subrange(ptr + n, m0.len() as int)[x - ptr - n]);
                            }
                        }
                    }
                }
                if old_ptr + super::index_units(i0 as int) * 12 <= m0.len() && ptr + n <= m0.len() && (ptr + n
                    <= old_ptr || old_ptr + 12 <= ptr) {
                    assert forall|j: int| 0 <= j < n implies #[trigger] m[ptr + j] == m0[old_ptr + j] by {
                        assert(m[ptr + j] == m1[ptr + j]);
                        assert(m1[ptr + j] == m0.subrange(old_ptr as int, old_ptr + n)[j]);
                    }
                }
            }
            return ptr;
        }
        self.split_block(old_ptr, i0, i1);
        proof {
            let n = new_nu * 12;
            let m = self.mem.bytes();
            let blk = super::index_units(i0 as int) * 12;
            if old_ptr + blk <= 0x1_0000_0000 {
                assert forall|x: int|
                    0 <= x < m0.len() && !(old_ptr <= x < old_ptr + blk) && !(old_ptr <= x < old_ptr + n) implies #[trigger] m[x]
                        == m0[x] by {
                    assert(!(old_ptr + super::index_units(i1 as int) * 12 <= x < old_ptr + super::index_units(i1 as int) * 12
                        + (super::index_units(i0 as int) - super::index_units(i1 as int)) * 12));
                }
            }
            if old_ptr + super::index_units(i0 as int) * 12 <= m0.len() {
                assert forall|j: int| 0 <= j < n implies #[trigger] m[old_ptr + j] == m0[old_ptr + j] by {
                    assert(old_ptr + j < old_ptr + super::index_units(i1 as int) * 12);
                }
            }
        }
        old_ptr
    }

    /// Gives back the block of `nu` units at `ptr`.
    pub fn free_units(&mut self, ptr: u32, nu: u32)
        requires
            old(self).wf(),
        ensures
            alloc_frame(*old(self), *final(self)),
            1 <= nu <= 128 ==> node_inserted(*old(self), *final(self), ptr, old(self).units2index@[nu - 1] as u32),
            !(1 <= nu <= 128) ==> *final(self) == *old(self),
            same_areas(*old(self), *final(self)),
            final(self).glue_count == old(self).glue_count,
    {
        if let Some(i) = self.u2i(nu) {
            self.insert_node(ptr, i);
        }
    }

    /// Gives back one unit: into the smallest list, or, at the start of the units
    /// area, by moving that start up.
    pub fn special_free_unit(&mut self, ptr: u32)
        requires
            old(self).wf(),
        ensures
            alloc_frame(*old(self), *final(self)),
            ptr != old(self).units_start ==> node_inserted(*old(self), *final(self), ptr, 0),
            ptr == old(self).units_start ==> final(self).mem == old(self).mem && final(self).free_list == old(self).free_list,
            final(self).lo_unit == old(self).lo_unit,
            final(self).hi_unit == old(self).hi_unit,
            final(self).glue_count == old(self).glue_count,
            ptr == old(self).units_start ==> final(self).units_start == old(self).units_start.wrapping_add(UNIT_SIZE),
            ptr != old(self).units_start ==> final(self).units_start == old(self).units_start,
    {
        if ptr != self.units_start {
            self.insert_node(ptr, 0);
        } else {
            self.units_start = self.units_start.wrapping_add(UNIT_SIZE);
        }
    }

    /// Moves the start of the units area up over the free blocks that lie there, and
    /// takes those blocks out of their lists.
    ///
    /// Where one free block lies there, at the head of the list of its size class, and
    /// the unit after it is no free block, the units area starts after that block, and
    /// the block has left its list.
    pub fn expand_text_area(&mut self)
        requires
            old(self).wf(),
        ensures
            alloc_frame(*old(self), *final(self)),
            final(self).lo_unit == old(self).lo_unit,
            final(self).hi_unit == old(self).hi_unit,
            final(self).glue_count == old(self).glue_count,
            lone_free_block(*old(self)) ==> ({
                let us = old(self).units_start;
                let nu = old(self).mem.spec_rd32(us.wrapping_add(8));
                let ci = old(self).units2index@[nu - 1] as int;
                &&& final(self).units_start == (us + nu * 12) as u32
                &&& final(self).free_list@ == old(self).free_list@.update(ci, old(self).mem.spec_rd32(us.wrapping_add(4)))
                &&& final(self).stamps@ == old(self).stamps@.update(ci, old(self).stamps@[ci].wrapping_sub(1))
            }),
    {
        let ghost us0 = self.units_start;
        let ghost nu0 = self.mem.spec_rd32(us0.wrapping_add(8));
        let ghost end0 = us0 + nu0 * 12;
        let ghost ci = self.units2index@[nu0 - 1] as int;
        let ghost nxt = self.mem.spec_rd32(us0.wrapping_add(4));
        let ghost lone = lone_free_block(*self);
        let mut count = zeros_u32(PPMD_NUM_INDEXES as usize);
        let ghost m_old = self.mem;
        if self.lo_unit != self.hi_unit {
            self.mem.wr32(self.lo_unit, 0);
            proof {
                if lone {
                    assert(same_outside(m_old.bytes(), self.mem.bytes(), self.lo_unit as int, 4));
                    lemma_rd32_kept(m_old, self.mem, self.lo_unit as int, us0);
                    lemma_rd32_kept(m_old, self.mem, self.lo_unit as int, us0.wrapping_add(4));
                    lemma_rd32_kept(m_old, self.mem, self.lo_unit as int, us0.wrapping_add(8));
                    lemma_rd32_kept(m_old, self.mem, self.lo_unit as int, end0 as u32);
                }
            }
        }
        let mut node = self.units_start;
        let mut fuel: usize = self.mem.len();
        let ghost mut fresh = true;
        proof {
            if lone {
                assert(ci < PPMD_NUM_INDEXES);
            }
        }
        while fuel > 0 && self.mem.rd32(node) == EMPTY_NODE
            invariant
                alloc_frame(*old(self), *self),
                self.lo_unit == old(self).lo_unit,
                self.hi_unit == old(self).hi_unit,
                self.glue_count == old(self).glue_count,
                count.len() == PPMD_NUM_INDEXES,
                us0 == old(self).units_start,
                lone ==> 1 <= nu0 <= 128 && end0 == us0 + nu0 * 12 && end0 + 4 <= self.mem.bytes().len() && end0 < 0x1_0000_0000,
                lone ==> 0 <= ci < PPMD_NUM_INDEXES && ci == self.units2index@[nu0 - 1],
                fresh ==> node == us0 && self.units_start == us0 && self.free_list == old(self).free_list && self.stamps
                    == old(self).stamps && fuel == self.mem.bytes().len(),
                fresh ==> forall|j: int| 0 <= j < PPMD_NUM_INDEXES ==> #[trigger] count@[j] == 0,
                fresh && lone ==> self.mem.spec_rd32(us0) == EMPTY_NODE && self.mem.spec_rd32(us0.wrapping_add(8)) == nu0
                    && self.mem.spec_rd32(us0.wrapping_add(4)) == nxt && self.mem.spec_rd32(end0 as u32) != EMPTY_NODE,
                !fresh ==> lone ==> node == end0 as u32 && self.units_start == us0 && self.free_list == old(self).free_list
                    && self.stamps == old(self).stamps,
                !fresh ==> lone ==> forall|j: int| 0 <= j < PPMD_NUM_INDEXES ==> #[trigger] count@[j] == (if j == ci { 1u32 } else { 0u32 }),
                !fresh ==> lone ==> self.mem.spec_rd32(us0) == 0 && self.mem.spec_rd32(us0.wrapping_add(4)) == nxt
                    && self.mem.spec_rd32(end0 as u32) != EMPTY_NODE,
            decreases fuel,
        {
            let ghost was_fresh = fresh;
            proof {
                fresh = false;
            }
            fuel = fuel - 1;
            let nu = self.mem.rd32(node.wrapping_add(8));
            let ghost m1 = self.mem;
            self.mem.wr32(node, 0);
            proof {
                if was_fresh && lone {
                    assert(same_outside(m1.bytes(), self.mem.bytes(), us0 as int, 4));
                    lemma_rd32_kept(m1, self.mem, us0 as int, us0.wrapping_add(4));
                    lemma_rd32_kept(m1, self.mem, us0 as int, end0 as u32);
                    assert(self.mem.spec_rd32(us0) == 0);
                }
            }
            if let Some(i) = self.u2i(nu) {
                let c = count[i as usize].wrapping_add(1);
                count.set(i as usize, c);
            }
            node = node.wrapping_add(nu.wrapping_mul(UNIT_SIZE));
            proof {
                if was_fresh && lone {
                    assert(nu.wrapping_mul(UNIT_SIZE) == nu0 * 12);
                    assert(node == end0 as u32);
                }
            }
        }
        self.units_start = node;
        let mut i: usize = 0;
        while i < PPMD_NUM_INDEXES as usize
            invariant
                alloc_frame(*old(self), *self),
                self.lo_unit == old(self).lo_unit,
                self.hi_unit == old(self).hi_unit,
                self.glue_count == old(self).glue_count,
                count.len() == PPMD_NUM_INDEXES,
                i <= PPMD_NUM_INDEXES,
                lone ==> 0 <= ci < PPMD_NUM_INDEXES && self.mem.bytes().len() > 0,
                lone ==> self.units_start == end0 as u32,
                lone ==> old(self).free_list@[ci] == us0,
                lone ==> forall|j: int| 0 <= j < PPMD_NUM_INDEXES ==> #[trigger] count@[j] == (if j == ci { 1u32 } else { 0u32 }),
                lone ==> self.mem.spec_rd32(us0) == 0 && self.mem.spec_rd32(us0.wrapping_add(4)) == nxt,
                lone && i <= ci ==> self.free_list == old(self).free_list && self.stamps == old(self).stamps,
                lone && i > ci ==> self.free_list@ == old(self).free_list@.update(ci, nxt) && self.stamps@
                    == old(self).stamps@.update(ci, old(self).stamps@[ci].wrapping_sub(1)),
            decreases PPMD_NUM_INDEXES - i,
        {
            let mut cnt = count[i];
            if cnt != 0 {
                let mut prev = Link::List(i);
                let mut n = self.free_list[i];
                let st = self.stamps[i].wrapping_sub(cnt);
                self.stamps.set(i, st);
                let mut head: u32 = 0;
                let mut fuel2: usize = self.mem.len();
                let ghost mut fresh2 = true;
                let ghost pre = *self;
                while fuel2 > 0
                    invariant_except_break
                        !fresh2 ==> !(lone && i == ci),
                    invariant
                        alloc_frame(*old(self), *self),
                        self.lo_unit == old(self).lo_unit,
                        self.hi_unit == old(self).hi_unit,
                        self.glue_count == old(self).glue_count,
                        i < PPMD_NUM_INDEXES,
                        prev matches Link::List(j) ==> j < PPMD_NUM_INDEXES,
                        fresh2 ==> *self == pre && prev == Link::List(i) && n == pre.free_list@[i as int] && cnt == count@[i as int]
                            && fuel2 == self.mem.bytes().len(),
                        lone && i == ci ==> pre.mem.spec_rd32(us0) == 0 && pre.mem.spec_rd32(us0.wrapping_add(4)) == nxt
                            && pre.free_list@[i as int] == us0 && count@[i as int] == 1 && pre.mem.bytes().len() > 0,
                    ensures
                        lone && i == ci ==> *self == (Ppmd8 { free_list: self.free_list, ..pre }) && self.free_list@
                            == pre.free_list@.update(i as int, nxt),
                    decreases fuel2,
                {
                    let ghost was_fresh2 = fresh2;
                    fuel2 = fuel2 - 1;
                    let node = n;
                    n = self.mem.rd32(node.wrapping_add(4));
                    if self.mem.rd32(node) != 0 {
                        prev = Link::Mem(node.wrapping_add(4));
                        proof {
                            fresh2 = false;
                        }
                        continue;
                    }
                    self.set_link(&prev, &mut head, n);
                    cnt = cnt.wrapping_sub(1);
                    if cnt == 0 {
                        proof {
                            fresh2 = false;
                            if was_fresh2 && lone && i == ci {
                                assert(self.free_list@ =~= pre.free_list@.update(i as int, nxt));
                            }
                        }
                        break;
                    }
                    proof {
                        fresh2 = false;
                    }
                }
            }
            proof {
                if lone && i == ci {
                    assert(self.stamps@ =~= old(self).stamps@.update(ci, old(self).stamps@[ci].wrapping_sub(1)));
                    assert(self.free_list@ =~= old(self).free_list@.update(ci, nxt));
                }
            }
            i = i + 1;
        }
    }
}

/// The start of the units area holds one free block of 1 to 128 units, the head of
/// the list of its size class, and the unit after it, inside the memory, is no free
/// block; the word that marks the free area's start lies outside both.
pub open spec fn lone_free_block<RC>(p: Ppmd8<RC>) -> bool {
    let us = p.units_start;
    let nu = p.mem.spec_rd32(us.wrapping_add(8));
    let end = us + nu * 12;
    let lo = p.lo_unit;
    &&& 1 <= nu <= 128
    &&& p.mem.spec_rd32(us) == EMPTY_NODE
    &&& end + 4 <= p.mem.bytes().len()
    &&& end < 0x1_0000_0000
    &&& p.mem.spec_rd32(end as u32) != EMPTY_NODE
    &&& p.free_list@[p.units2index@[nu - 1] as int] == us
    &&& (lo == p.hi_unit || lo + 4 <= us || end + 4 <= lo)
}

/// A word read from the memory is the same after a write of the four bytes at
/// `off` that lie apart from it.
pub(crate) proof fn lemma_rd32_kept(a: super::arena::Arena, b: super::arena::Arena, off: int, x: u32)
    requires
        same_outside(a.bytes(), b.bytes(), off, 4),
        x + 4 <= off || off + 4 <= x,
    ensures
        b.spec_rd32(x) == a.spec_rd32(x),
{
    if fits(x, 4, a.bytes().len()) {
        let xi = x as int;
        assert(b.bytes()[xi] == a.bytes()[xi] && b.bytes()[xi + 1] == a.bytes()[xi + 1] && b.bytes()[xi + 2] == a.bytes()[xi + 2]
            && b.bytes()[xi + 3] == a.bytes()[xi + 3]);
    }
}

} // verus!

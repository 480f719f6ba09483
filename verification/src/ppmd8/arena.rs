//! The memory of the PPMd8 model: a byte array in which contexts, states and free
//! blocks live at 32-bit offsets. Every access is checked: one that would fall
//! outside the array reads zero and writes nothing.

use vstd::prelude::*;

verus! {

/// The little-endian 16-bit value at `i` of `s`.
pub open spec fn le16(s: Seq<u8>, i: int) -> int {
    s[i] as int + 0x100 * s[i + 1] as int
}

/// The little-endian 32-bit value at `i` of `s`.
pub open spec fn le32(s: Seq<u8>, i: int) -> int {
    s[i] as int + 0x100 * s[i + 1] as int + 0x1_0000 * s[i + 2] as int + 0x100_0000 * s[i + 3] as int
}

/// `new` is `old` with only the `n` bytes at `off` changed.
pub open spec fn same_outside(old: Seq<u8>, new: Seq<u8>, off: int, n: int) -> bool {
    &&& new.len() == old.len()
    &&& forall|j: int| 0 <= j < old.len() && !(off <= j < off + n) ==> #[trigger] new[j] == old[j]
}

/// Whether the `n` bytes at `off` lie inside an array of `len` bytes.
pub open spec fn fits(off: u32, n: nat, len: nat) -> bool {
    off as int + n <= len
}

/// The model memory.
pub struct Arena {
    mem: Vec<u8>,
}

impl Arena {
    /// The bytes of the memory.
    pub closed spec fn bytes(&self) -> Seq<u8> {
        self.mem@
    }

    /// A memory of `len` zero bytes.
    pub fn new(len: usize) -> (a: Arena)
        ensures
            a.bytes() == Seq::new(len as nat, |i: int| 0u8),
    {
        let mut mem: Vec<u8> = Vec::new();
        let mut i: usize = 0;
        while i < len
            invariant
                i <= len,
                mem@ == Seq::new(i as nat, |j: int| 0u8),
            decreases len - i,
        {
            mem.push(0);
            i = i + 1;
            proof {
                assert(mem@ =~= Seq::new(i as nat, |j: int| 0u8));
            }
        }
        Arena { mem }
    }

    /// What `rd8` reads at `off`.
    pub open spec fn spec_rd8(&self, off: u32) -> u8 {
        if fits(off, 1, self.bytes().len()) {
            self.bytes()[off as int]
        } else {
            0
        }
    }

    /// What `rd16` reads at `off`.
    pub open spec fn spec_rd16(&self, off: u32) -> u16 {
        if fits(off, 2, self.bytes().len()) {
            le16(self.bytes(), off as int) as u16
        } else {
            0
        }
    }

    /// What `rd32` reads at `off`.
    pub open spec fn spec_rd32(&self, off: u32) -> u32 {
        if fits(off, 4, self.bytes().len()) {
            le32(self.bytes(), off as int) as u32
        } else {
            0
        }
    }

    /// The size of the memory in bytes.
    pub fn len(&self) -> (n: usize)
        ensures
            n == self.bytes().len(),
    {
        self.mem.len()
    }

    /// The byte at `off`; zero outside the memory.
    pub fn rd8(&self, off: u32) -> (v: u8)
        ensures
            v == self.spec_rd8(off),
            fits(off, 1, self.bytes().len()) ==> v == self.bytes()[off as int],
            !fits(off, 1, self.bytes().len()) ==> v == 0,
    {
        if (off as usize) < self.mem.len() {
            self.mem[off as usize]
        } else {
            0
        }
    }

    /// The 16-bit value at `off`; zero unless it lies inside the memory.
    pub fn rd16(&self, off: u32) -> (v: u16)
        ensures
            v == self.spec_rd16(off),
            fits(off, 2, self.bytes().len()) ==> v as int == le16(self.bytes(), off as int),
            !fits(off, 2, self.bytes().len()) ==> v == 0,
    {
        if (off as usize) < self.mem.len() && self.mem.len() - (off as usize) >= 2 {
            let i = off as usize;
            let b0 = self.mem[i] as u16;
            let b1 = self.mem[i + 1] as u16;
            proof {
                assert(b0 | (b1 << 8) == b0 + 0x100 * b1) by (bit_vector)
                    requires
                        b0 < 256,
                        b1 < 256,
                ;
            }
            b0 | (b1 << 8)
        } else {
            0
        }
    }

    /// The 32-bit value at `off`; zero unless it lies inside the memory.
    pub fn rd32(&self, off: u32) -> (v: u32)
        ensures
            v == self.spec_rd32(off),
            fits(off, 4, self.bytes().len()) ==> v as int == le32(self.bytes(), off as int),
            !fits(off, 4, self.bytes().len()) ==> v == 0,
    {
        if (off as usize) < self.mem.len() && self.mem.len() - (off as usize) >= 4 {
            let i = off as usize;
            let b0 = self.mem[i] as u32;
            let b1 = self.mem[i + 1] as u32;
            let b2 = self.mem[i + 2] as u32;
            let b3 = self.mem[i + 3] as u32;
            proof {
                assert(b0 | (b1 << 8) | (b2 << 16) | (b3 << 24) == b0 + 0x100 * b1 + 0x1_0000 * b2 + 0x100_0000 * b3)
                    by (bit_vector)
                    requires
                        b0 < 256,
                        b1 < 256,
                        b2 < 256,
                        b3 < 256,
                ;
            }
            b0 | (b1 << 8) | (b2 << 16) | (b3 << 24)
        } else {
            0
        }
    }

    /// Writes `v` at `off`; nothing outside the memory.
    pub fn wr8(&mut self, off: u32, v: u8)
        ensures
            fits(off, 1, old(self).bytes().len()) ==> final(self).bytes() == old(self).bytes().update(off as int, v),
            !fits(off, 1, old(self).bytes().len()) ==> final(self).bytes() == old(self).bytes(),
    {
        if (off as usize) < self.mem.len() {
            self.mem.set(off as usize, v);
        }
    }

    /// Writes the 16-bit `v` at `off`, low byte first; nothing unless it fits.
    pub fn wr16(&mut self, off: u32, v: u16)
        ensures
            fits(off, 2, old(self).bytes().len()) ==> {
                &&& le16(final(self).bytes(), off as int) == v as int
                &&& same_outside(old(self).bytes(), final(self).bytes(), off as int, 2)
            },
            !fits(off, 2, old(self).bytes().len()) ==> final(self).bytes() == old(self).bytes(),
    {
        if (off as usize) < self.mem.len() && self.mem.len() - (off as usize) >= 2 {
            let i = off as usize;
            let lo = (v & 0xFF) as u8;
            let hi = (v >> 8) as u8;
            proof {
                assert(lo as int + 0x100 * hi as int == v as int) by (bit_vector)
                    requires
                        lo == (v & 0xFF) as u8,
                        hi == (v >> 8) as u8,
                ;
            }
            self.mem.set(i, lo);
            self.mem.set(i + 1, hi);
        }
    }

    /// Writes the 32-bit `v` at `off`, low byte first; nothing unless it fits.
    pub fn wr32(&mut self, off: u32, v: u32)
        ensures
            fits(off, 4, old(self).bytes().len()) ==> {
                &&& le32(final(self).bytes(), off as int) == v as int
                &&& same_outside(old(self).bytes(), final(self).bytes(), off as int, 4)
            },
            !fits(off, 4, old(self).bytes().len()) ==> final(self).bytes() == old(self).bytes(),
    {
        if (off as usize) < self.mem.len() && self.mem.len() - (off as usize) >= 4 {
            let i = off as usize;
            let b0 = (v & 0xFF) as u8;
            let b1 = ((v >> 8) & 0xFF) as u8;
            let b2 = ((v >> 16) & 0xFF) as u8;
            let b3 = (v >> 24) as u8;
            proof {
                assert(b0 as int + 0x100 * b1 as int + 0x1_0000 * b2 as int + 0x100_0000 * b3 as int == v as int)
                    by (bit_vector)
                    requires
                        b0 == (v & 0xFF) as u8,
                        b1 == ((v >> 8) & 0xFF) as u8,
                        b2 == ((v >> 16) & 0xFF) as u8,
                        b3 == (v >> 24) as u8,
                ;
            }
            self.mem.set(i, b0);
            self.mem.set(i + 1, b1);
            self.mem.set(i + 2, b2);
            self.mem.set(i + 3, b3);
        }
    }

    /// Copies `n` bytes from `src` to `dst`, as if through a buffer; nothing unless
    /// both ranges lie inside the memory.
    pub fn copy(&mut self, src: u32, dst: u32, n: u32)
        ensures
            final(self).bytes().len() == old(self).bytes().len(),
            fits(src, n as nat, old(self).bytes().len()) && fits(dst, n as nat, old(self).bytes().len())
                ==> final(self).bytes() == old(self).bytes().subrange(0, dst as int) + old(self).bytes().subrange(
                src as int,
                src + n,
            ) + old(self).bytes().subrange(dst + n, old(self).bytes().len() as int),
            !(fits(src, n as nat, old(self).bytes().len()) && fits(dst, n as nat, old(self).bytes().len()))
                ==> final(self).bytes() == old(self).bytes(),
    {
        let len = self.mem.len();
        if (src as usize) <= len && len - (src as usize) >= n as usize && (dst as usize) <= len
            && len - (dst as usize) >= n as usize {
            let ghost s0 = self.mem@;
            let mut buf: Vec<u8> = Vec::new();
            let mut i: usize = 0;
            while i < n as usize
                invariant
                    i <= n,
                    self.mem@ == s0,
                    s0.len() == self.mem.len(),
                    src as int + n as int <= s0.len(),
                    buf@ == s0.subrange(src as int, src + i),
                decreases n - i,
            {
                buf.push(self.mem[src as usize + i]);
                i = i + 1;
                proof {
                    assert(buf@ =~= s0.subrange(src as int, src + i));
                }
            }
            let mut j: usize = 0;
            while j < n as usize
                invariant
                    j <= n,
                    dst as int + n as int <= s0.len(),
                    src as int + n as int <= s0.len(),
                    self.mem@.len() == s0.len(),
                    self.mem.len() == s0.len(),
                    buf.len() == n,
                    buf@ == s0.subrange(src as int, src + n),
                    self.mem@ =~= s0.subrange(0, dst as int) + buf@.subrange(0, j as int) + s0.subrange(
                        dst + j,
                        s0.len() as int,
                    ),
                decreases n - j,
            {
                self.mem.set(dst as usize + j, buf[j]);
                j = j + 1;
                proof {
                    assert(self.mem@ =~= s0.subrange(0, dst as int) + buf@.subrange(0, j as int) + s0.subrange(
                        dst + j,
                        s0.len() as int,
                    ));
                }
            }
            proof {
                assert(buf@.subrange(0, n as int) =~= buf@);
            }
        }
    }
}

} // verus!

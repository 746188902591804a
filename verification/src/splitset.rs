//! A fixed-capacity set of split offsets within one search window.
//!
//! Offsets range over `0..256`, so four 64-bit words suffice.  The engine
//! records, per recursion level, the split points of the best decomposition
//! found so far; reconstructing a winning path only ever needs insertion,
//! clearing, in-place union and an ascending decode.

use vstd::prelude::*;

verus! {

/// Number of offsets a [`SplitSet`] can hold; also the hard cap on the
/// length of one search window.
pub const SPLIT_CAP: usize = 256;

/// Bit-vector of split offsets in `0..256`.
#[derive(Clone, Copy, Debug)]
pub struct SplitSet {
    bits: [u64; 4],
}

impl SplitSet {
    /// Offset `i` is marked in this set.
    pub closed spec fn has(self, i: int) -> bool {
        0 <= i < 256 && (self.bits@[i / 64] >> ((i % 64) as u64)) & 1u64 == 1u64
    }

    /// The empty set.
    pub fn empty() -> (r: SplitSet)
        ensures
            forall|j: int| !r.has(j),
    {
        let r = SplitSet { bits: [0u64, 0u64, 0u64, 0u64] };
        proof {
            assert forall|j: int| !r.has(j) by {
                if 0 <= j < 256 {
                    let b = (j % 64) as u64;
                    assert((0u64 >> b) & 1u64 == 0u64) by (bit_vector);
                }
            }
        }
        r
    }

    /// Remove every offset.
    pub fn clear(&mut self)
        ensures
            forall|j: int| !final (self).has(j),
    {
        *self = SplitSet::empty();
    }

    /// Mark offset `off`.
    pub fn insert(&mut self, off: usize)
        requires
            off < 256,
        ensures
            forall|j: int| final (self).has(j) == (old(self).has(j) || j == off),
    {
        let idx: usize = off / 64;
        let b: u64 = (off % 64) as u64;
        let w: u64 = self.bits[idx];
        let nw: u64 = w | (1u64 << b);
        self.bits[idx] = nw;
        proof {
            assert(forall|j: u64|
                j < 64 && b < 64 ==> ((nw >> j) & 1u64 == 1u64) == ((w >> j) & 1u64 == 1u64 || j
                    == b)) by (bit_vector)
                requires
                    nw == w | (1u64 << b),
            ;
            assert forall|j: int| self.has(j) == (old(self).has(j) || j == off) by {
                if 0 <= j < 256 {
                    if j / 64 == idx {
                        assert(self.bits@[j / 64] == nw);
                        assert((j % 64) < 64 && b < 64);
                        if j % 64 == b as int && j / 64 == off as int / 64 {
                            assert(j == off);
                        }
                    } else {
                        assert(self.bits@[j / 64] == old(self).bits@[j / 64]);
                    }
                }
            }
        }
    }

    /// Merge every offset of `other` into this set.
    pub fn union_with(&mut self, other: &SplitSet)
        ensures
            forall|j: int| (#[trigger] final (self).has(j)) == (old(self).has(j) || other.has(j)),
    {
        let r = SplitSet {
            bits: [
                self.bits[0] | other.bits[0],
                self.bits[1] | other.bits[1],
                self.bits[2] | other.bits[2],
                self.bits[3] | other.bits[3],
            ],
        };
        proof {
            assert forall|j: int| r.has(j) == (self.has(j) || other.has(j)) by {
                if 0 <= j < 256 {
                    let x = self.bits@[j / 64];
                    let y = other.bits@[j / 64];
                    let b = (j % 64) as u64;
                    assert(0 <= j / 64 < 4);
                    assert(r.bits@[j / 64] == x | y);
                    assert((((x | y) >> b) & 1u64 == 1u64) == ((x >> b) & 1u64 == 1u64 || (y >> b)
                        & 1u64 == 1u64)) by (bit_vector);
                }
            }
        }
        *self = r;
    }

    /// Offset `off` is marked.
    pub fn contains(&self, off: usize) -> (r: bool)
        requires
            off < 256,
        ensures
            r == self.has(off as int),
    {
        let w: u64 = self.bits[off / 64];
        (w >> ((off % 64) as u64)) & 1u64 == 1u64
    }

    /// All marked offsets, shifted by `base`, in strictly ascending order.
    pub fn decode(&self, base: usize) -> (r: Vec<usize>)
        requires
            base + 256 <= usize::MAX,
        ensures
            forall|i: int|
                0 <= i < r@.len() ==> base <= #[trigger] r@[i] && r@[i] < base + 256 && self.has(
                    r@[i] - base,
                ),
            forall|i: int, j: int| 0 <= i < j < r@.len() ==> r@[i] < r@[j],
            forall|k: int| 0 <= k < 256 && self.has(k) ==> r@.contains((base + k) as usize),
    {
        let mut out: Vec<usize> = Vec::new();
        let mut k: usize = 0;
        while k < 256
            invariant
                k <= 256,
                base + 256 <= usize::MAX,
                forall|i: int|
                    0 <= i < out@.len() ==> base <= #[trigger] out@[i] && out@[i] < base + k
                        && self.has(out@[i] - base),
                forall|i: int, j: int| 0 <= i < j < out@.len() ==> out@[i] < out@[j],
                forall|kk: int| 0 <= kk < k && self.has(kk) ==> out@.contains((base + kk) as usize),
            decreases 256 - k,
        {
            if self.contains(k) {
                let ghost oo = out@;
                out.push(base + k);
                proof {
                    assert forall|kk: int|
                        0 <= kk < k + 1 && self.has(kk) implies out@.contains(
                        (base + kk) as usize,
                    ) by {
                        if kk < k {
                            assert(oo.contains((base + kk) as usize));
                            let i = choose|i: int|
                                0 <= i < oo.len() && oo[i] == (base + kk) as usize;
                            assert(out@[i] == (base + kk) as usize);
                        } else {
                            assert(out@[out@.len() - 1] == (base + kk) as usize);
                        }
                    }
                }
            }
            k += 1;
        }
        out
    }
}

} // verus!

//! Selecting the largest blob, once or repeatedly.

use vstd::prelude::*;
use crate::pixel::Pixel;
use crate::cluster::{Blob, BlobSet};
use crate::error::BlobError;

verus! {

/// The index of the largest blob in the list, with ties broken toward the
/// earlier (lower) index: scanning left to right, a later blob displaces
/// the current choice only when it is strictly larger.
pub open spec fn first_max_index(blobs: Seq<Seq<Pixel>>) -> int
    decreases blobs.len(),
{
    if blobs.len() <= 1 {
        0
    } else {
        let p = first_max_index(blobs.drop_last());
        if blobs.last().len() > blobs[p].len() {
            blobs.len() - 1
        } else {
            p
        }
    }
}

/// Selector correctness: on a non-empty list, `first_max_index` names a
/// blob at least as large as every other, and strictly larger than every
/// blob created before it — under a size tie the earlier blob wins.
pub proof fn lemma_first_max_index_props(blobs: Seq<Seq<Pixel>>)
    requires
        blobs.len() > 0,
    ensures
        0 <= first_max_index(blobs) < blobs.len(),
        forall|j: int|
            0 <= j < blobs.len() ==> (#[trigger] blobs[j]).len() <= blobs[first_max_index(
                blobs,
            )].len(),
        forall|j: int|
            0 <= j < first_max_index(blobs) ==> (#[trigger] blobs[j]).len() < blobs[first_max_index(
                blobs,
            )].len(),
    decreases blobs.len(),
{
    if blobs.len() > 1 {
        let rest = blobs.drop_last();
        lemma_first_max_index_props(rest);
        let p = first_max_index(rest);
        let m = first_max_index(blobs);
        assert(blobs[p] == rest[p]);
        assert forall|j: int| 0 <= j < blobs.len() implies (#[trigger] blobs[j]).len()
            <= blobs[m].len() by {
            if j < blobs.len() - 1 {
                assert(blobs[j] == rest[j]);
                assert(rest[j].len() <= rest[p].len());
            }
        }
        assert forall|j: int| 0 <= j < m implies (#[trigger] blobs[j]).len() < blobs[m].len() by {
            assert(blobs[j] == rest[j]);
            if m == blobs.len() - 1 {
                assert(rest[j].len() <= rest[p].len());
            } else {
                assert(rest[j].len() < rest[p].len());
            }
        }
    }
}

/// The `k` largest blobs, in extraction order: the largest of the list
/// (earliest under ties), then the largest of what remains, and so on,
/// stopping early when the list runs out.
pub open spec fn top_k_blobs(blobs: Seq<Seq<Pixel>>, k: int) -> Seq<Seq<Pixel>>
    decreases k,
{
    if k <= 0 || blobs.len() == 0 {
        Seq::empty()
    } else {
        let i = first_max_index(blobs);
        seq![blobs[i]] + top_k_blobs(blobs.remove(i), k - 1)
    }
}

/// What is left of the list after extracting its `k` largest blobs.
pub open spec fn remaining_after_top_k(blobs: Seq<Seq<Pixel>>, k: int) -> Seq<Seq<Pixel>>
    decreases k,
{
    if k <= 0 || blobs.len() == 0 {
        blobs
    } else {
        remaining_after_top_k(blobs.remove(first_max_index(blobs)), k - 1)
    }
}

impl BlobSet {
    /// The index of the largest blob, ties broken toward creation order.
    fn find_largest_index(&self) -> (i: usize)
        requires
            self@.len() > 0,
        ensures
            i as int == first_max_index(self@),
            i < self@.len(),
    {
        let n = self.blobs.len();
        let mut best: usize = 0;
        let mut j: usize = 1;
        assert(first_max_index(self@.take(1)) == 0);
        while j < n
            invariant
                1 <= j <= n,
                n == self.blobs@.len(),
                best < j,
                best as int == first_max_index(self@.take(j as int)),
            decreases n - j,
        {
            let ghost pre = self@.take(j as int);
            proof {
                lemma_first_max_index_props(pre);
                assert(self@.take(j + 1 as int).drop_last() =~= pre);
                assert(self@.take(j + 1 as int).last() == self@[j as int]);
            }
            if self.blobs[j].members.len() > self.blobs[best].members.len() {
                best = j;
            }
            j = j + 1;
        }
        proof {
            assert(self@.take(n as int) =~= self@);
        }
        best
    }

    /// Returns the largest blob of the set, or `EmptySet` if there is none.
    /// Among blobs of equal size the one created earliest wins.
    pub fn find_largest(&self) -> (r: Result<&Blob, BlobError>)
        ensures
            r is Ok <==> self@.len() > 0,
            r matches Ok(b) ==> *b == self.blobs@[first_max_index(self@)] && b@
                == self@[first_max_index(self@)],
            r matches Err(e) ==> e == BlobError::EmptySet,
    {
        if self.blobs.len() == 0 {
            return Err(BlobError::EmptySet);
        }
        let i = self.find_largest_index();
        Ok(&self.blobs[i])
    }

    /// Extracts the `k` largest blobs: repeatedly find the largest blob of
    /// what remains and remove it, so no pixel is handed out twice. Returns
    /// the extracted blobs in extraction order; the set keeps the rest.
    /// Asking for more blobs than the set holds returns them all.
    pub fn extract_top_k(&mut self, k: usize) -> (r: Vec<Blob>)
        requires
            old(self).wf(),
        ensures
            r@.map_values(|b: Blob| b.members@) == top_k_blobs(old(self)@, k as int),
            final(self)@ == remaining_after_top_k(old(self)@, k as int),
            final(self).wf(),
            forall|t: int| 0 <= t < r@.len() ==> (#[trigger] r@[t]).wf(),
    {
        let mut out: Vec<Blob> = Vec::new();
        let mut t: usize = 0;
        loop
            invariant_except_break
                t <= k,
                self.wf(),
                forall|t2: int| 0 <= t2 < out@.len() ==> (#[trigger] out@[t2]).wf(),
                top_k_blobs(old(self)@, k as int) == out@.map_values(|b: Blob| b.members@)
                    + top_k_blobs(self@, k - t),
                remaining_after_top_k(old(self)@, k as int) == remaining_after_top_k(
                    self@,
                    k - t,
                ),
            ensures
                self.wf(),
                forall|t2: int| 0 <= t2 < out@.len() ==> (#[trigger] out@[t2]).wf(),
                out@.map_values(|b: Blob| b.members@) == top_k_blobs(old(self)@, k as int),
                final(self)@ == remaining_after_top_k(old(self)@, k as int),
            decreases k - t,
        {
            if t == k {
                proof {
                    assert(top_k_blobs(self@, 0) =~= Seq::<Seq<Pixel>>::empty());
                    assert(out@.map_values(|b: Blob| b.members@) + Seq::<Seq<Pixel>>::empty()
                        =~= out@.map_values(|b: Blob| b.members@));
                }
                break;
            }
            if self.blobs.len() == 0 {
                proof {
                    assert(top_k_blobs(self@, k - t) =~= Seq::<Seq<Pixel>>::empty());
                    assert(out@.map_values(|b: Blob| b.members@) + Seq::<Seq<Pixel>>::empty()
                        =~= out@.map_values(|b: Blob| b.members@));
                    assert(remaining_after_top_k(self@, k - t) == self@);
                }
                break;
            }
            let ghost cur = self@;
            let ghost outm = out@.map_values(|b: Blob| b.members@);
            let i = self.find_largest_index();
            let b = self.blobs.remove(i);
            out.push(b);
            proof {
                lemma_first_max_index_props(cur);
                assert(self@ =~= cur.remove(i as int));
                assert(out@.map_values(|b: Blob| b.members@) =~= outm.push(cur[i as int]));
                assert(top_k_blobs(cur, k - t) == seq![cur[i as int]] + top_k_blobs(
                    cur.remove(i as int),
                    k - t - 1,
                ));
                assert(outm + top_k_blobs(cur, k - t) =~= outm.push(cur[i as int]) + top_k_blobs(
                    cur.remove(i as int),
                    k - t - 1,
                ));
            }
            t = t + 1;
        }
        out
    }
}

} // verus!

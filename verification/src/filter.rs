//! Discarding blobs that fail size or brightness criteria.

use vstd::prelude::*;
use crate::pixel::{luminance, spec_luminance, Pixel};
use crate::cluster::{Blob, BlobSet};

verus! {

/// Criteria a blob must meet to survive filtering. The luminance bound is
/// in the fixed-point scale of [`spec_luminance`].
#[derive(Clone, Copy, Debug)]
pub struct FilterConfig {
    /// Blobs with fewer members than this are discarded.
    pub min_size: usize,
    /// If set, blobs whose representative's luminance is not strictly below
    /// this bound are discarded (used to drop bright, background-colored
    /// blobs such as paper-white).
    pub luminance_threshold: Option<u32>,
}

/// Whether a blob survives the filter: it is large enough, and its
/// representative (first member) is dark enough if a threshold is set.
/// Both checks are pure predicates over the blob alone.
pub open spec fn spec_keep_blob(blob: Seq<Pixel>, cfg: FilterConfig) -> bool {
    &&& blob.len() >= cfg.min_size
    &&& (cfg.luminance_threshold matches Some(t) ==> spec_luminance(blob[0]) < t)
}

/// The blobs that survive the filter, in their original order.
pub open spec fn filter_blobs(blobs: Seq<Seq<Pixel>>, cfg: FilterConfig) -> Seq<Seq<Pixel>>
    decreases blobs.len(),
{
    if blobs.len() == 0 {
        Seq::empty()
    } else {
        let rest = filter_blobs(blobs.drop_last(), cfg);
        if spec_keep_blob(blobs.last(), cfg) {
            rest.push(blobs.last())
        } else {
            rest
        }
    }
}

/// The total member count of a blob list.
pub open spec fn total_members(blobs: Seq<Seq<Pixel>>) -> nat
    decreases blobs.len(),
{
    if blobs.len() == 0 {
        0
    } else {
        total_members(blobs.drop_last()) + blobs.last().len()
    }
}

/// Copies a pixel vector; pixels are small fixed-size values, so blobs own
/// their members outright.
fn copy_pixels(v: &Vec<Pixel>) -> (r: Vec<Pixel>)
    ensures
        r@ == v@,
{
    let mut r: Vec<Pixel> = Vec::new();
    let n = v.len();
    let mut i: usize = 0;
    while i < n
        invariant
            i <= n,
            n == v@.len(),
            r@ == v@.take(i as int),
        decreases n - i,
    {
        r.push(v[i]);
        proof {
            assert(v@.take(i + 1 as int) =~= v@.take(i as int).push(v@[i as int]));
        }
        i = i + 1;
    }
    proof {
        assert(v@.take(n as int) =~= v@);
    }
    r
}

impl BlobSet {
    /// Returns a new set holding exactly the blobs that meet `cfg`, in
    /// their original creation order; the input set is left as it was.
    pub fn filter(&self, cfg: &FilterConfig) -> (r: BlobSet)
        requires
            self.wf(),
        ensures
            r@ == filter_blobs(self@, *cfg),
            r.wf(),
    {
        let mut out = BlobSet { blobs: Vec::new() };
        let n = self.blobs.len();
        let mut i: usize = 0;
        assert(self@.take(0) =~= Seq::<Seq<Pixel>>::empty());
        while i < n
            invariant
                i <= n,
                n == self.blobs@.len(),
                self.wf(),
                out@ == filter_blobs(self@.take(i as int), *cfg),
                out.wf(),
            decreases n - i,
        {
            let ghost prev = out@;
            let b = &self.blobs[i];
            proof {
                assert(self@[i as int] == b.members@);
            }
            let keep_size = b.members.len() >= cfg.min_size;
            let keep_lum = match cfg.luminance_threshold {
                Some(t) => luminance(&b.representative) < t,
                None => true,
            };
            proof {
                assert((keep_size && keep_lum) == spec_keep_blob(self@[i as int], *cfg));
            }
            if keep_size && keep_lum {
                let copied = Blob { representative: b.representative, members: copy_pixels(&b.members) };
                out.blobs.push(copied);
                proof {
                    assert(out@ =~= prev.push(self@[i as int]));
                }
            }
            proof {
                assert(self@.take(i + 1 as int).drop_last() =~= self@.take(i as int));
                assert(self@.take(i + 1 as int).last() == self@[i as int]);
            }
            i = i + 1;
        }
        proof {
            assert(self@.take(n as int) =~= self@);
        }
        out
    }
}

proof fn lemma_total_members_push(blobs: Seq<Seq<Pixel>>, b: Seq<Pixel>)
    ensures
        total_members(blobs.push(b)) == total_members(blobs) + b.len(),
{
    assert(blobs.push(b).drop_last() =~= blobs);
    assert(blobs.push(b).last() == b);
}

/// Monotonicity of filtering: the result never has more blobs, nor more
/// members in total, than its input.
pub proof fn lemma_filter_monotone(blobs: Seq<Seq<Pixel>>, cfg: FilterConfig)
    ensures
        filter_blobs(blobs, cfg).len() <= blobs.len(),
        total_members(filter_blobs(blobs, cfg)) <= total_members(blobs),
    decreases blobs.len(),
{
    if blobs.len() > 0 {
        let rest = blobs.drop_last();
        lemma_filter_monotone(rest, cfg);
        if spec_keep_blob(blobs.last(), cfg) {
            lemma_total_members_push(filter_blobs(rest, cfg), blobs.last());
        }
    }
}

/// Every blob of the filtered list meets the criteria, and the filtered
/// list is a subsequence of the input: filtering only ever discards.
pub proof fn lemma_filter_keeps_only_matching(blobs: Seq<Seq<Pixel>>, cfg: FilterConfig)
    ensures
        forall|j: int|
            0 <= j < filter_blobs(blobs, cfg).len() ==> spec_keep_blob(
                #[trigger] filter_blobs(blobs, cfg)[j],
                cfg,
            ) && blobs.contains(filter_blobs(blobs, cfg)[j]),
    decreases blobs.len(),
{
    if blobs.len() > 0 {
        let rest = blobs.drop_last();
        lemma_filter_keeps_only_matching(rest, cfg);
        assert forall|x: Seq<Pixel>| rest.contains(x) implies blobs.contains(x) by {
            let i = choose|i: int| 0 <= i < rest.len() && rest[i] == x;
            assert(blobs[i] == x);
        }
        assert(blobs.contains(blobs.last())) by {
            assert(blobs[blobs.len() - 1] == blobs.last());
        }
        let f = filter_blobs(blobs, cfg);
        let fr = filter_blobs(rest, cfg);
        assert forall|j: int| 0 <= j < f.len() implies spec_keep_blob(#[trigger] f[j], cfg)
            && blobs.contains(f[j]) by {
            if spec_keep_blob(blobs.last(), cfg) {
                assert(f == fr.push(blobs.last()));
                if j < fr.len() {
                    assert(f[j] == fr[j]);
                    assert(rest.contains(fr[j]));
                } else {
                    assert(f[j] == blobs.last());
                }
            } else {
                assert(f == fr);
                assert(rest.contains(fr[j]));
            }
        }
    }
}

} // verus!

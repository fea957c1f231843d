//! Greedy first-match clustering of a pixel grid into blobs.
//!
//! One pass over the grid: each pixel joins the first existing blob whose
//! representative is similar to it, or founds a new blob at the end of the
//! list. A blob's representative is its first pixel and never re-centers,
//! so the per-pixel work is one scan over the blob list, not over any
//! blob's full membership.

use vstd::prelude::*;
use vstd::seq_lib::{group_to_multiset_ensures, lemma_multiset_commutative};
use vstd::multiset::Multiset;
use crate::pixel::Pixel;
use crate::similarity::{is_similar, lemma_similarity_reflexive, spec_similar, SimilarityConfig};
use crate::grid::PixelGrid;

verus! {

/// A group of pixels judged similar in color to one representative pixel.
#[derive(Debug)]
pub struct Blob {
    /// The first pixel assigned to the blob; its color is the fixed anchor
    /// all candidate pixels are compared against.
    pub representative: Pixel,
    /// Every pixel of the blob, in assignment order; the representative is
    /// the first entry.
    pub members: Vec<Pixel>,
}

impl View for Blob {
    type V = Seq<Pixel>;

    open spec fn view(&self) -> Seq<Pixel> {
        self.members@
    }
}

impl Blob {
    /// A blob is never empty and leads with its representative.
    pub open spec fn wf(&self) -> bool {
        self.members@.len() > 0 && self.members@[0] == self.representative
    }
}

/// The blobs of one clustering run, in creation order. The position of a
/// blob in the list is its synthetic id; earlier positions were created
/// earlier, which is what the selector's tie-break relies on.
#[derive(Debug)]
pub struct BlobSet {
    /// The blobs, ordered by creation.
    pub blobs: Vec<Blob>,
}

impl View for BlobSet {
    type V = Seq<Seq<Pixel>>;

    open spec fn view(&self) -> Seq<Seq<Pixel>> {
        self.blobs@.map_values(|b: Blob| b.members@)
    }
}

impl BlobSet {
    /// Every blob of the set is well-formed.
    pub open spec fn wf(&self) -> bool {
        forall|j: int| 0 <= j < self.blobs@.len() ==> (#[trigger] self.blobs@[j]).wf()
    }

    /// The number of blobs in the set.
    pub fn len(&self) -> (n: usize)
        ensures
            n == self@.len(),
    {
        self.blobs.len()
    }
}

/// Whether a candidate pixel belongs to a blob: the blob exists and its
/// representative (first member) is similar to the pixel.
pub open spec fn matches_blob(blob: Seq<Pixel>, p: Pixel, cfg: SimilarityConfig) -> bool {
    blob.len() > 0 && spec_similar(blob[0], p, cfg)
}

/// The index of the first blob at or after `j` that `p` matches, if any.
pub open spec fn first_match_from(
    blobs: Seq<Seq<Pixel>>,
    p: Pixel,
    cfg: SimilarityConfig,
    j: int,
) -> Option<int>
    decreases blobs.len() - j,
{
    if j < 0 || j >= blobs.len() {
        None
    } else if matches_blob(blobs[j], p, cfg) {
        Some(j)
    } else {
        first_match_from(blobs, p, cfg, j + 1)
    }
}

/// The index of the first blob that `p` matches, if any: first-match-wins.
pub open spec fn first_match(blobs: Seq<Seq<Pixel>>, p: Pixel, cfg: SimilarityConfig) -> Option<
    int,
> {
    first_match_from(blobs, p, cfg, 0)
}

/// One clustering step: append `p` to the first blob it matches, or found
/// a new blob holding only `p` after all current blobs.
pub open spec fn insert_pixel(
    blobs: Seq<Seq<Pixel>>,
    p: Pixel,
    cfg: SimilarityConfig,
) -> Seq<Seq<Pixel>> {
    match first_match(blobs, p, cfg) {
        Some(j) => blobs.update(j, blobs[j].push(p)),
        None => blobs.push(seq![p]),
    }
}

/// The blobs produced by clustering `pixels` in order, starting from no
/// blobs. This is the whole algorithm as a mathematical function: the
/// clusterer's result is determined by the pixel sequence and the
/// configuration alone.
pub open spec fn cluster_seq(pixels: Seq<Pixel>, cfg: SimilarityConfig) -> Seq<Seq<Pixel>>
    decreases pixels.len(),
{
    if pixels.len() == 0 {
        Seq::empty()
    } else {
        insert_pixel(cluster_seq(pixels.drop_last(), cfg), pixels.last(), cfg)
    }
}

/// `first_match_from` starting anywhere left of the first match agrees with
/// starting at `j`, provided no blob before `j` matches.
proof fn lemma_first_match_shift(
    blobs: Seq<Seq<Pixel>>,
    p: Pixel,
    cfg: SimilarityConfig,
    j: int,
)
    requires
        0 <= j <= blobs.len(),
        forall|j2: int| 0 <= j2 < j ==> !matches_blob(#[trigger] blobs[j2], p, cfg),
    ensures
        first_match(blobs, p, cfg) == first_match_from(blobs, p, cfg, j),
    decreases j,
{
    if j > 0 {
        lemma_first_match_shift(blobs, p, cfg, j - 1);
    }
}

/// What a successful first match means: the index is in range, the blob
/// there matches, and no earlier blob does.
pub proof fn lemma_first_match_found(
    blobs: Seq<Seq<Pixel>>,
    p: Pixel,
    cfg: SimilarityConfig,
    j: int,
)
    requires
        first_match(blobs, p, cfg) == Some(j),
    ensures
        0 <= j < blobs.len(),
        matches_blob(blobs[j], p, cfg),
        forall|j2: int| 0 <= j2 < j ==> !matches_blob(#[trigger] blobs[j2], p, cfg),
{
    lemma_first_match_found_from(blobs, p, cfg, 0, j);
}

proof fn lemma_first_match_found_from(
    blobs: Seq<Seq<Pixel>>,
    p: Pixel,
    cfg: SimilarityConfig,
    start: int,
    j: int,
)
    requires
        0 <= start,
        first_match_from(blobs, p, cfg, start) == Some(j),
    ensures
        start <= j < blobs.len(),
        matches_blob(blobs[j], p, cfg),
        forall|j2: int| start <= j2 < j ==> !matches_blob(#[trigger] blobs[j2], p, cfg),
    decreases blobs.len() - start,
{
    if start < blobs.len() && !matches_blob(blobs[start], p, cfg) {
        lemma_first_match_found_from(blobs, p, cfg, start + 1, j);
    }
}

/// Clusters the whole grid: the result is exactly [`cluster_seq`] applied
/// to the grid's pixel sequence.
pub fn cluster(grid: &PixelGrid, cfg: SimilarityConfig) -> (r: BlobSet)
    ensures
        r@ == cluster_seq(grid@, cfg),
        r.wf(),
{
    let mut set = BlobSet { blobs: Vec::new() };
    let npix = grid.pixels.len();
    assert(grid.pixels@.take(0) =~= Seq::<Pixel>::empty());
    let mut i: usize = 0;
    while i < npix
        invariant
            i <= npix,
            npix == grid.pixels@.len(),
            set@ == cluster_seq(grid.pixels@.take(i as int), cfg),
            set.wf(),
        decreases npix - i,
    {
        let p = grid.pixels[i];
        let ghost prev = set@;
        let nblobs = set.blobs.len();
        let mut j: usize = 0;
        let mut found: bool = false;
        while j < nblobs
            invariant_except_break
                !found,
                j <= nblobs,
                nblobs == set.blobs@.len(),
                set.wf(),
                set@ == prev,
                forall|j2: int| 0 <= j2 < j ==> !matches_blob(#[trigger] set@[j2], p, cfg),
            ensures
                nblobs == set.blobs@.len(),
                set.wf(),
                set@ == prev,
                found ==> j < nblobs && matches_blob(set@[j as int], p, cfg) && first_match(
                    set@,
                    p,
                    cfg,
                ) == Some(j as int),
                !found ==> forall|j2: int|
                    0 <= j2 < nblobs ==> !matches_blob(#[trigger] set@[j2], p, cfg),
            decreases nblobs - j,
        {
            if is_similar(&set.blobs[j].representative, &p, &cfg) {
                found = true;
                proof {
                    assert(set@[j as int] == set.blobs@[j as int].members@);
                    assert(matches_blob(set@[j as int], p, cfg));
                    lemma_first_match_shift(set@, p, cfg, j as int);
                    assert(first_match_from(set@, p, cfg, j as int) == Some(j as int));
                }
                break;
            }
            proof {
                assert(set@[j as int] == set.blobs@[j as int].members@);
                assert(!matches_blob(set@[j as int], p, cfg));
            }
            j = j + 1;
        }
        proof {
            if !found {
                lemma_first_match_shift(set@, p, cfg, nblobs as int);
            }
        }
        if found {
            set.blobs[j].members.push(p);
            proof {
                assert(set@ =~= prev.update(j as int, prev[j as int].push(p)));
            }
        } else {
            let mut members: Vec<Pixel> = Vec::new();
            members.push(p);
            let b = Blob { representative: p, members };
            set.blobs.push(b);
            proof {
                assert(b.members@ =~= seq![p]);
                assert(set@ =~= prev.push(seq![p]));
            }
        }
        proof {
            assert(set@ == insert_pixel(prev, p, cfg));
            assert(grid.pixels@.take(i + 1 as int).drop_last() =~= grid.pixels@.take(i as int));
            assert(grid.pixels@.take(i + 1 as int).last() == p);
        }
        i = i + 1;
    }
    proof {
        assert(grid.pixels@.take(npix as int) =~= grid@);
    }
    set
}

/// Appending `p` to the blob at `j` adds exactly one copy of `p` to the
/// flattened contents.
proof fn lemma_flatten_update_push(s: Seq<Seq<Pixel>>, j: int, p: Pixel)
    requires
        0 <= j < s.len(),
    ensures
        s.update(j, s[j].push(p)).flatten().to_multiset() =~= s.flatten().to_multiset().insert(p),
    decreases j,
{
    broadcast use group_to_multiset_ensures;
    broadcast use vstd::multiset::group_multiset_axioms;

    let upd = s.update(j, s[j].push(p));
    if j == 0 {
        assert(upd.drop_first() =~= s.drop_first());
        assert(upd.first() == s[0].push(p));
        assert(upd.flatten() == s[0].push(p) + s.drop_first().flatten());
        assert(s.flatten() == s[0] + s.drop_first().flatten());
        lemma_multiset_commutative(s[0].push(p), s.drop_first().flatten());
        lemma_multiset_commutative(s[0], s.drop_first().flatten());
        assert(s[0].push(p).to_multiset() =~= s[0].to_multiset().insert(p));
    } else {
        let tail = s.drop_first();
        lemma_flatten_update_push(tail, j - 1, p);
        assert(upd.drop_first() =~= tail.update(j - 1, tail[j - 1].push(p)));
        assert(upd.first() == s.first());
        assert(upd.flatten() == s.first() + tail.update(j - 1, tail[j - 1].push(p)).flatten());
        assert(s.flatten() == s.first() + tail.flatten());
        lemma_multiset_commutative(s.first(), tail.update(j - 1, tail[j - 1].push(p)).flatten());
        lemma_multiset_commutative(s.first(), tail.flatten());
    }
}

/// One clustering step adds exactly the inserted pixel to the contents of
/// the blob list, whichever blob it lands in.
proof fn lemma_insert_pixel_multiset(blobs: Seq<Seq<Pixel>>, p: Pixel, cfg: SimilarityConfig)
    ensures
        insert_pixel(blobs, p, cfg).flatten().to_multiset() =~= blobs.flatten().to_multiset()
            .insert(p),
{
    broadcast use group_to_multiset_ensures;
    broadcast use vstd::multiset::group_multiset_axioms;

    match first_match(blobs, p, cfg) {
        Some(j) => {
            lemma_first_match_found(blobs, p, cfg, j);
            lemma_flatten_update_push(blobs, j, p);
        },
        None => {
            blobs.lemma_flatten_push(seq![p]);
            lemma_multiset_commutative(blobs.flatten(), seq![p]);
            assert(seq![p] =~= Seq::<Pixel>::empty().push(p));
            assert(Seq::<Pixel>::empty().to_multiset() =~= Multiset::<Pixel>::empty());
            assert(seq![p].to_multiset() =~= Multiset::<Pixel>::empty().insert(p));
        },
    }
}

/// The partition property of clustering: taken together, the blobs hold
/// exactly the input pixels — each pixel of the grid lands in exactly one
/// blob, none is dropped and none is duplicated.
pub proof fn lemma_cluster_partition(pixels: Seq<Pixel>, cfg: SimilarityConfig)
    ensures
        cluster_seq(pixels, cfg).flatten().to_multiset() =~= pixels.to_multiset(),
        cluster_seq(pixels, cfg).flatten().len() == pixels.len(),
    decreases pixels.len(),
{
    broadcast use group_to_multiset_ensures;
    broadcast use vstd::multiset::group_multiset_axioms;

    if pixels.len() == 0 {
        assert(cluster_seq(pixels, cfg).flatten() =~= Seq::<Pixel>::empty());
        assert(Seq::<Pixel>::empty().to_multiset() =~= pixels.to_multiset());
    } else {
        let rest = pixels.drop_last();
        lemma_cluster_partition(rest, cfg);
        lemma_insert_pixel_multiset(cluster_seq(rest, cfg), pixels.last(), cfg);
        assert(rest.push(pixels.last()) =~= pixels);
        assert(rest.push(pixels.last()).to_multiset() =~= rest.to_multiset().insert(pixels.last()));
    }
    assert(cluster_seq(pixels, cfg).flatten().to_multiset().len() == cluster_seq(
        pixels,
        cfg,
    ).flatten().len());
    assert(pixels.to_multiset().len() == pixels.len());
}

/// Every non-representative member of a blob is similar to the blob's
/// representative, its first member.
pub open spec fn blob_consistent(blob: Seq<Pixel>, cfg: SimilarityConfig) -> bool {
    forall|k: int| 1 <= k < blob.len() ==> spec_similar(blob[0], #[trigger] blob[k], cfg)
}

/// Every blob of the list is non-empty and internally consistent.
pub open spec fn clusters_consistent(blobs: Seq<Seq<Pixel>>, cfg: SimilarityConfig) -> bool {
    forall|j: int|
        0 <= j < blobs.len() ==> (#[trigger] blobs[j]).len() > 0 && blob_consistent(blobs[j], cfg)
}

/// One clustering step preserves consistency: a pixel only ever joins a
/// blob whose representative it is similar to.
proof fn lemma_insert_pixel_consistent(blobs: Seq<Seq<Pixel>>, p: Pixel, cfg: SimilarityConfig)
    requires
        clusters_consistent(blobs, cfg),
    ensures
        clusters_consistent(insert_pixel(blobs, p, cfg), cfg),
{
    let r = insert_pixel(blobs, p, cfg);
    match first_match(blobs, p, cfg) {
        Some(j) => {
            lemma_first_match_found(blobs, p, cfg, j);
            assert forall|j2: int| 0 <= j2 < r.len() implies (#[trigger] r[j2]).len() > 0
                && blob_consistent(r[j2], cfg) by {
                if j2 == j {
                    let b = blobs[j];
                    assert(r[j2] == b.push(p));
                    assert forall|k: int| 1 <= k < r[j2].len() implies spec_similar(
                        r[j2][0],
                        #[trigger] r[j2][k],
                        cfg,
                    ) by {
                        if k < b.len() {
                            assert(r[j2][k] == b[k]);
                        } else {
                            assert(r[j2][k] == p);
                        }
                    }
                } else {
                    assert(r[j2] == blobs[j2]);
                }
            }
        },
        None => {
            assert forall|j2: int| 0 <= j2 < r.len() implies (#[trigger] r[j2]).len() > 0
                && blob_consistent(r[j2], cfg) by {
                if j2 == blobs.len() {
                    assert(r[j2] =~= seq![p]);
                    assert(r[j2].len() == 1);
                } else {
                    assert(r[j2] == blobs[j2]);
                }
            }
        },
    }
}

/// Clustering yields only consistent, non-empty blobs.
pub proof fn lemma_cluster_consistent(pixels: Seq<Pixel>, cfg: SimilarityConfig)
    ensures
        clusters_consistent(cluster_seq(pixels, cfg), cfg),
    decreases pixels.len(),
{
    if pixels.len() > 0 {
        lemma_cluster_consistent(pixels.drop_last(), cfg);
        lemma_insert_pixel_consistent(cluster_seq(pixels.drop_last(), cfg), pixels.last(), cfg);
    }
}

/// Similarity consistency of clustering: every member of every blob —
/// the representative included — is similar to the blob's representative,
/// provided the configuration admits at least one differing channel (with
/// `max_different_channels == 0` similarity is not reflexive and even a
/// blob's representative fails the test against itself).
pub proof fn lemma_cluster_similarity(pixels: Seq<Pixel>, cfg: SimilarityConfig)
    requires
        cfg.max_different_channels >= 1,
    ensures
        forall|j: int, k: int|
            0 <= j < cluster_seq(pixels, cfg).len() && 0 <= k < cluster_seq(pixels, cfg)[j].len()
                ==> spec_similar(
                cluster_seq(pixels, cfg)[j][0],
                #[trigger] cluster_seq(pixels, cfg)[j][k],
                cfg,
            ),
{
    let cs = cluster_seq(pixels, cfg);
    lemma_cluster_consistent(pixels, cfg);
    assert forall|j: int, k: int|
        0 <= j < cs.len() && 0 <= k < cs[j].len() implies spec_similar(
        cs[j][0],
        #[trigger] cs[j][k],
        cfg,
    ) by {
        if k == 0 {
            lemma_similarity_reflexive(cs[j][0], cfg);
        } else {
            assert(blob_consistent(cs[j], cfg));
        }
    }
}

/// A member of any inner sequence occurs in the flattened whole.
proof fn lemma_flatten_contains_member(s: Seq<Seq<Pixel>>, j: int, k: int)
    requires
        0 <= j < s.len(),
        0 <= k < s[j].len(),
    ensures
        s.flatten().contains(s[j][k]),
    decreases j,
{
    if j == 0 {
        assert(s.flatten() == s.first() + s.drop_first().flatten());
        assert(s.flatten()[k] == s[j][k]);
    } else {
        let tail = s.drop_first();
        lemma_flatten_contains_member(tail, j - 1, k);
        let x = s[j][k];
        assert(tail[j - 1] == s[j]);
        let idx = choose|i: int| 0 <= i < tail.flatten().len() && tail.flatten()[i] == x;
        assert(s.flatten() == s.first() + tail.flatten());
        assert(s.flatten()[s.first().len() + idx] == x);
    }
}

/// No pixel is invented by clustering: every member of every blob occurs
/// in the input sequence.
pub proof fn lemma_cluster_members_from_input(pixels: Seq<Pixel>, cfg: SimilarityConfig)
    ensures
        forall|j: int, k: int|
            0 <= j < cluster_seq(pixels, cfg).len() && 0 <= k < cluster_seq(pixels, cfg)[j].len()
                ==> pixels.contains(#[trigger] cluster_seq(pixels, cfg)[j][k]),
{
    broadcast use group_to_multiset_ensures;

    let cs = cluster_seq(pixels, cfg);
    lemma_cluster_partition(pixels, cfg);
    assert forall|j: int, k: int|
        0 <= j < cs.len() && 0 <= k < cs[j].len() implies pixels.contains(
        #[trigger] cs[j][k],
    ) by {
        let x = cs[j][k];
        lemma_flatten_contains_member(cs, j, k);
        assert(cs.flatten().to_multiset().count(x) > 0);
        assert(pixels.to_multiset().count(x) > 0);
    }
}

/// Determinism of clustering: the blobs are a function of the pixel
/// sequence and the configuration alone, so clustering the same grid twice
/// yields identical blob membership and identical tie-break order.
pub proof fn lemma_cluster_deterministic(
    pixels1: Seq<Pixel>,
    pixels2: Seq<Pixel>,
    cfg: SimilarityConfig,
)
    requires
        pixels1 == pixels2,
    ensures
        cluster_seq(pixels1, cfg) == cluster_seq(pixels2, cfg),
{
}

} // verus!

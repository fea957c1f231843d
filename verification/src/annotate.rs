//! Painting a blob's pixels onto the output canvas with a marker color.
//!
//! The canvas is the same byte layout the grid was decoded from: four bytes
//! per pixel, row-major. Annotation overwrites the three color bytes of each
//! member's position and leaves the fourth byte of the chunk alone.

use vstd::prelude::*;
use vstd::arithmetic::div_mod::{lemma_fundamental_div_mod, lemma_fundamental_div_mod_converse};
use crate::pixel::Pixel;
use crate::cluster::{cluster_seq, lemma_cluster_members_from_input, Blob};
use crate::grid::{lemma_grid_positions_in_bounds, spec_grid, GridConfig};
use crate::similarity::SimilarityConfig;
use crate::error::BlobError;

verus! {

/// The fixed color a blob is painted with.
#[derive(Clone, Copy, PartialEq, Eq, Structural, Debug)]
pub struct MarkerColor {
    pub r: u8,
    pub g: u8,
    pub b: u8,
}

/// The linear chunk index of a pixel's position in a row-major canvas.
pub open spec fn pos_index(p: Pixel, width: usize) -> int {
    p.y * (width as int) + p.x
}

/// Whether a pixel's position lies on a canvas of the given dimensions.
pub open spec fn in_bounds(p: Pixel, width: usize, height: usize) -> bool {
    0 <= p.x < width as int && 0 <= p.y < height as int
}

/// Whether every member's position lies on the canvas.
pub open spec fn all_in_bounds(members: Seq<Pixel>, width: usize, height: usize) -> bool {
    forall|k: int| 0 <= k < members.len() ==> in_bounds(#[trigger] members[k], width, height)
}

/// Whether annotation writes to byte `i` of the canvas: `i` is one of the
/// three color bytes of a chunk some member sits on.
pub open spec fn marked(members: Seq<Pixel>, width: usize, i: int) -> bool {
    i % 4 < 3 && exists|k: int|
        0 <= k < members.len() && pos_index(#[trigger] members[k], width) == i / 4
}

/// The marker byte written to a color channel: channel 0 is red, 1 green,
/// 2 blue.
pub open spec fn marker_channel(m: MarkerColor, c: int) -> u8 {
    if c == 0 {
        m.r
    } else if c == 1 {
        m.g
    } else {
        m.b
    }
}

/// The canvas after painting `members` with `m`: every marked byte holds
/// the marker channel for its lane, every other byte is unchanged. The
/// result depends only on *which* positions are members, so painting the
/// same blob again changes nothing.
pub open spec fn annotate_spec(
    canvas: Seq<u8>,
    width: usize,
    members: Seq<Pixel>,
    m: MarkerColor,
) -> Seq<u8> {
    Seq::new(
        canvas.len(),
        |i: int|
            if marked(members, width, i) {
                marker_channel(m, i % 4)
            } else {
                canvas[i]
            },
    )
}

/// Idempotence of annotation: painting the same members with the same
/// marker a second time leaves the canvas exactly as after the first
/// application.
pub proof fn lemma_annotate_idempotent(
    canvas: Seq<u8>,
    width: usize,
    members: Seq<Pixel>,
    m: MarkerColor,
)
    ensures
        annotate_spec(annotate_spec(canvas, width, members, m), width, members, m)
            == annotate_spec(canvas, width, members, m),
{
    let once = annotate_spec(canvas, width, members, m);
    let twice = annotate_spec(once, width, members, m);
    assert(twice =~= once);
}

/// Blobs clustered from a grid that was decoded with the canvas's own
/// dimensions can never paint out of bounds: their members' positions all
/// come from that grid, and the grid's positions all lie on the canvas.
pub proof fn lemma_clustered_blobs_in_bounds(
    bytes: Seq<u8>,
    width: usize,
    height: usize,
    gcfg: GridConfig,
    scfg: SimilarityConfig,
)
    requires
        bytes.len() <= 4 * ((width as int) * (height as int)),
        width as int <= i32::MAX as int,
        height as int <= i32::MAX as int,
    ensures
        forall|j: int|
            0 <= j < cluster_seq(spec_grid(bytes, width, gcfg), scfg).len() ==> all_in_bounds(
                #[trigger] cluster_seq(spec_grid(bytes, width, gcfg), scfg)[j],
                width,
                height,
            ),
{
    let grid = spec_grid(bytes, width, gcfg);
    let cs = cluster_seq(grid, scfg);
    lemma_grid_positions_in_bounds(bytes, width, height, gcfg);
    lemma_cluster_members_from_input(grid, scfg);
    assert forall|j: int| 0 <= j < cs.len() implies all_in_bounds(
        #[trigger] cs[j],
        width,
        height,
    ) by {
        assert forall|k: int| 0 <= k < cs[j].len() implies in_bounds(
            #[trigger] cs[j][k],
            width,
            height,
        ) by {
            assert(grid.contains(cs[j][k]));
            let i = choose|i: int| 0 <= i < grid.len() && grid[i] == cs[j][k];
            assert(0 <= grid[i].x < width as int && 0 <= grid[i].y < height as int);
        }
    }
}

/// Painting one more member overwrites exactly the three color bytes of its
/// chunk with the marker channels.
proof fn lemma_annotate_step(
    c0: Seq<u8>,
    width: usize,
    members: Seq<Pixel>,
    m: MarkerColor,
    k: int,
)
    requires
        0 <= k < members.len(),
        0 <= pos_index(members[k], width),
        4 * pos_index(members[k], width) + 3 <= c0.len(),
    ensures
        annotate_spec(c0, width, members.take(k + 1), m) == annotate_spec(
            c0,
            width,
            members.take(k),
            m,
        ).update(4 * pos_index(members[k], width), m.r).update(
            4 * pos_index(members[k], width) + 1,
            m.g,
        ).update(4 * pos_index(members[k], width) + 2, m.b),
{
    let pi = pos_index(members[k], width);
    let off = 4 * pi;
    let a = annotate_spec(c0, width, members.take(k + 1), m);
    let b = annotate_spec(c0, width, members.take(k), m).update(off, m.r).update(
        off + 1,
        m.g,
    ).update(off + 2, m.b);
    assert forall|i: int| 0 <= i < c0.len() implies a[i] == b[i] by {
        if off <= i < off + 3 {
            lemma_fundamental_div_mod_converse(i, 4, pi, i - off);
            assert(members.take(k + 1)[k] == members[k]);
            assert(marked(members.take(k + 1), width, i));
        } else {
            lemma_fundamental_div_mod(i, 4);
            if marked(members.take(k), width, i) {
                let w = choose|w: int|
                    0 <= w < members.take(k).len() && pos_index(
                        #[trigger] members.take(k)[w],
                        width,
                    ) == i / 4;
                assert(members.take(k + 1)[w] == members.take(k)[w]);
                assert(marked(members.take(k + 1), width, i));
            } else if marked(members.take(k + 1), width, i) {
                let w = choose|w: int|
                    0 <= w < members.take(k + 1).len() && pos_index(
                        #[trigger] members.take(k + 1)[w],
                        width,
                    ) == i / 4;
                if w < k {
                    assert(members.take(k)[w] == members.take(k + 1)[w]);
                    assert(marked(members.take(k), width, i));
                } else {
                    assert(members.take(k + 1)[w] == members[k]);
                    assert(i / 4 == pi);
                    assert(i == 4 * (i / 4) + i % 4);
                    assert(false);
                }
            }
        }
    }
    assert(a =~= b);
}

/// Paints every member of `blob`, at its recorded position, onto `canvas`
/// with the marker color, overwriting the three color bytes of the
/// position's chunk.
///
/// Fails with `OutOfBounds`, leaving the canvas untouched, exactly when
/// some member's position lies outside a `width` by `height` canvas; the
/// positions of a grid decoded with the same dimensions are always in
/// bounds.
pub fn annotate(
    canvas: &mut Vec<u8>,
    width: usize,
    height: usize,
    blob: &Blob,
    m: MarkerColor,
) -> (r: Result<(), BlobError>)
    requires
        old(canvas)@.len() == 4 * ((width as int) * (height as int)),
    ensures
        r is Ok <==> all_in_bounds(blob@, width, height),
        r is Ok ==> final(canvas)@ == annotate_spec(old(canvas)@, width, blob@, m),
        r is Err ==> final(canvas)@ == old(canvas)@,
        r matches Err(e) ==> e == BlobError::OutOfBounds,
{
    let nm = blob.members.len();
    let mut k: usize = 0;
    while k < nm
        invariant
            k <= nm,
            nm == blob.members@.len(),
            forall|k2: int| 0 <= k2 < k ==> in_bounds(#[trigger] blob@[k2], width, height),
        decreases nm - k,
    {
        let px = blob.members[k];
        if px.x < 0 || px.y < 0 || (px.x as usize) >= width || (px.y as usize) >= height {
            assert(!in_bounds(blob@[k as int], width, height));
            return Err(BlobError::OutOfBounds);
        }
        k = k + 1;
    }
    assert(all_in_bounds(blob@, width, height));
    let clen = canvas.len();
    let ghost c0 = canvas@;
    assert(blob@.take(0) =~= Seq::<Pixel>::empty());
    assert(canvas@ =~= annotate_spec(c0, width, blob@.take(0), m));
    let mut k: usize = 0;
    while k < nm
        invariant
            k <= nm,
            nm == blob.members@.len(),
            all_in_bounds(blob@, width, height),
            c0 == old(canvas)@,
            c0.len() == clen,
            c0.len() == 4 * ((width as int) * (height as int)),
            canvas@ == annotate_spec(c0, width, blob@.take(k as int), m),
            canvas@.len() == c0.len(),
        decreases nm - k,
    {
        let px = blob.members[k];
        assert(in_bounds(blob@[k as int], width, height));
        let xi = px.x as usize;
        let yi = px.y as usize;
        assert((yi as int) * (width as int) + (xi as int) < (width as int) * (height as int))
            by (nonlinear_arith)
            requires
                (xi as int) < (width as int),
                (yi as int) < (height as int),
                0 <= xi as int,
                0 <= yi as int,
        ;
        let pi = yi * width + xi;
        assert(pi as int == pos_index(blob@[k as int], width));
        let off = 4 * pi;
        let ghost cpre = canvas@;
        canvas[off] = m.r;
        canvas[off + 1] = m.g;
        canvas[off + 2] = m.b;
        proof {
            assert(canvas@ == cpre.update(off as int, m.r).update(off + 1 as int, m.g).update(
                off + 2 as int,
                m.b,
            ));
            lemma_annotate_step(c0, width, blob@, m, k as int);
        }
        k = k + 1;
    }
    proof {
        assert(blob@.take(nm as int) =~= blob@);
    }
    Ok(())
}

} // verus!

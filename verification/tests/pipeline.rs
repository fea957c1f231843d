use blobseg::annotate::{annotate, MarkerColor};
use blobseg::cluster::{cluster, Blob, BlobSet};
use blobseg::error::BlobError;
use blobseg::filter::FilterConfig;
use blobseg::grid::{GridConfig, PixelGrid};
use blobseg::similarity::{is_similar, SimilarityConfig};

fn px(r: u8, g: u8, b: u8, x: i32, y: i32) -> blobseg::pixel::Pixel {
    blobseg::pixel::Pixel { r, g, b, x, y }
}

fn plain_cfg() -> GridConfig {
    GridConfig { sample_stride: 1, min_luminance: None, max_luminance: None }
}

fn sim_cfg() -> SimilarityConfig {
    SimilarityConfig { channel_tolerance: 5, max_different_channels: 1 }
}

fn gray_blob(shade: u8, size: usize) -> Blob {
    let mut members = Vec::new();
    for i in 0..size {
        members.push(px(shade, shade, shade, i as i32, 0));
    }
    Blob { representative: members[0], members }
}

#[test]
fn four_identical_pixels_make_one_blob() {
    let bytes: Vec<u8> = vec![0; 16];
    let grid = PixelGrid::from_bytes(&bytes, 2, 2, &plain_cfg()).unwrap();
    let set = cluster(&grid, sim_cfg());
    assert_eq!(set.blobs.len(), 1);
    assert_eq!(set.blobs[0].members.len(), 4);
    assert_eq!(set.blobs[0].representative, px(0, 0, 0, 0, 0));
}

#[test]
fn black_and_white_make_two_singleton_blobs() {
    let bytes: Vec<u8> = vec![0, 0, 0, 0, 255, 255, 255, 255];
    let grid = PixelGrid::from_bytes(&bytes, 2, 1, &plain_cfg()).unwrap();
    let set = cluster(&grid, sim_cfg());
    assert_eq!(set.blobs.len(), 2);
    assert_eq!(set.blobs[0].members.len(), 1);
    assert_eq!(set.blobs[1].members.len(), 1);
    assert_eq!(set.blobs[0].representative, px(0, 0, 0, 0, 0));
    assert_eq!(set.blobs[1].representative, px(255, 255, 255, 1, 0));
}

#[test]
fn first_match_wins_over_later_blobs() {
    // Under tolerance 10, the third pixel is similar to both existing
    // representatives; it must join the earlier blob and stop there.
    let cfg = SimilarityConfig { channel_tolerance: 10, max_different_channels: 1 };
    let grid = PixelGrid {
        pixels: vec![px(0, 0, 0, 0, 0), px(20, 20, 20, 1, 0), px(10, 10, 10, 2, 0)],
        width: 3,
        height: 1,
    };
    let set = cluster(&grid, cfg);
    assert_eq!(set.blobs.len(), 2);
    assert_eq!(set.blobs[0].members.len(), 2);
    assert_eq!(set.blobs[1].members.len(), 1);
    assert_eq!(set.blobs[0].members[1], px(10, 10, 10, 2, 0));
}

#[test]
fn clustering_covers_every_pixel_exactly_once() {
    // Partition check on a mixed grid: the blobs together hold each input
    // pixel exactly once.
    let bytes: Vec<u8> = vec![
        0, 0, 0, 0, 3, 3, 3, 0, 100, 100, 100, 0, 102, 98, 100, 0, 255, 255, 255, 0, 0, 0, 0, 0,
    ];
    let grid = PixelGrid::from_bytes(&bytes, 3, 2, &plain_cfg()).unwrap();
    let set = cluster(&grid, sim_cfg());
    let mut seen: Vec<(i32, i32)> = Vec::new();
    let mut total = 0;
    for blob in &set.blobs {
        total += blob.members.len();
        for m in &blob.members {
            assert!(!seen.contains(&(m.x, m.y)), "pixel assigned to two blobs");
            seen.push((m.x, m.y));
        }
    }
    assert_eq!(total, grid.pixels.len());
    for p in &grid.pixels {
        assert!(seen.contains(&(p.x, p.y)), "pixel dropped by clustering");
    }
}

#[test]
fn every_member_is_similar_to_its_representative() {
    let bytes: Vec<u8> = vec![
        0, 0, 0, 0, 3, 3, 3, 0, 100, 100, 100, 0, 102, 98, 100, 0, 255, 255, 255, 0, 4, 4, 4, 0,
    ];
    let grid = PixelGrid::from_bytes(&bytes, 3, 2, &plain_cfg()).unwrap();
    let cfg = sim_cfg();
    let set = cluster(&grid, cfg);
    for blob in &set.blobs {
        for m in &blob.members {
            assert!(is_similar(&blob.representative, m, &cfg));
        }
    }
}

#[test]
fn clustering_twice_gives_identical_blobs() {
    let bytes: Vec<u8> = vec![
        0, 0, 0, 0, 3, 3, 3, 0, 100, 100, 100, 0, 102, 98, 100, 0, 255, 255, 255, 0, 4, 4, 4, 0,
    ];
    let grid = PixelGrid::from_bytes(&bytes, 3, 2, &plain_cfg()).unwrap();
    let a = cluster(&grid, sim_cfg());
    let b = cluster(&grid, sim_cfg());
    assert_eq!(a.blobs.len(), b.blobs.len());
    for (ba, bb) in a.blobs.iter().zip(b.blobs.iter()) {
        assert_eq!(ba.representative, bb.representative);
        assert_eq!(ba.members, bb.members);
    }
}

#[test]
fn filter_keeps_only_large_blobs() {
    let set = BlobSet { blobs: vec![gray_blob(10, 4), gray_blob(40, 2)] };
    let cfg = FilterConfig { min_size: 3, luminance_threshold: None };
    let kept = set.filter(&cfg);
    assert_eq!(kept.blobs.len(), 1);
    assert_eq!(kept.blobs[0].members.len(), 4);
    assert_eq!(kept.blobs[0].representative.r, 10);
    // the input set is untouched
    assert_eq!(set.blobs.len(), 2);
}

#[test]
fn filter_never_grows_the_set() {
    let set = BlobSet { blobs: vec![gray_blob(10, 4), gray_blob(40, 2), gray_blob(70, 1)] };
    let cfg = FilterConfig { min_size: 2, luminance_threshold: None };
    let kept = set.filter(&cfg);
    assert!(kept.blobs.len() <= set.blobs.len());
    let total_in: usize = set.blobs.iter().map(|b| b.members.len()).sum();
    let total_out: usize = kept.blobs.iter().map(|b| b.members.len()).sum();
    assert!(total_out <= total_in);
}

#[test]
fn filter_drops_bright_representatives() {
    // Luminance of a uniform gray shade s is 10_000 * s.
    let dark = gray_blob(10, 3);
    let bright = gray_blob(200, 3);
    let set = BlobSet { blobs: vec![dark, bright] };
    let cfg = FilterConfig { min_size: 1, luminance_threshold: Some(1_000_000) };
    let kept = set.filter(&cfg);
    assert_eq!(kept.blobs.len(), 1);
    assert_eq!(kept.blobs[0].representative.r, 10);
}

#[test]
fn filter_luminance_bound_is_strict() {
    // Representative luminance exactly at the threshold is not strictly
    // below it, so the blob goes.
    let blob = gray_blob(100, 3);
    let set = BlobSet { blobs: vec![blob] };
    let at_threshold = FilterConfig { min_size: 1, luminance_threshold: Some(1_000_000) };
    assert_eq!(set.filter(&at_threshold).blobs.len(), 0);
    let just_above = FilterConfig { min_size: 1, luminance_threshold: Some(1_000_001) };
    assert_eq!(set.filter(&just_above).blobs.len(), 1);
}

#[test]
fn find_largest_prefers_size_then_creation_order() {
    let set = BlobSet { blobs: vec![gray_blob(10, 5), gray_blob(40, 3), gray_blob(70, 5)] };
    let largest = set.find_largest().unwrap();
    assert_eq!(largest.members.len(), 5);
    assert_eq!(largest.representative.r, 10, "tie must go to the earlier blob");
}

#[test]
fn find_largest_on_empty_set_fails() {
    let set = BlobSet { blobs: Vec::new() };
    let r = set.find_largest();
    assert!(matches!(r, Err(BlobError::EmptySet)));
}

#[test]
fn top_two_extraction_respects_tie_break() {
    let mut set = BlobSet { blobs: vec![gray_blob(10, 5), gray_blob(40, 3), gray_blob(70, 5)] };
    let picked = set.extract_top_k(2);
    assert_eq!(picked.len(), 2);
    assert_eq!(picked[0].members.len(), 5);
    assert_eq!(picked[0].representative.r, 10, "first extraction takes the earlier size-5 blob");
    assert_eq!(picked[1].members.len(), 5);
    assert_eq!(picked[1].representative.r, 70, "second extraction takes the later size-5 blob");
    assert_eq!(set.blobs.len(), 1);
    assert_eq!(set.blobs[0].representative.r, 40);
}

#[test]
fn extracting_more_than_available_returns_all() {
    let mut set = BlobSet { blobs: vec![gray_blob(10, 2), gray_blob(40, 1)] };
    let picked = set.extract_top_k(5);
    assert_eq!(picked.len(), 2);
    assert_eq!(set.blobs.len(), 0);
}

#[test]
fn annotate_paints_member_positions() {
    let mut canvas: Vec<u8> = vec![1, 2, 3, 4, 5, 6, 7, 8];
    let member = px(9, 9, 9, 1, 0);
    let blob = Blob { representative: member, members: vec![member] };
    let m = MarkerColor { r: 255, g: 0, b: 128 };
    let r = annotate(&mut canvas, 2, 1, &blob, m);
    assert!(r.is_ok());
    assert_eq!(canvas, vec![1, 2, 3, 4, 255, 0, 128, 8]);
}

#[test]
fn annotate_twice_changes_nothing_more() {
    let mut canvas: Vec<u8> = vec![10, 20, 30, 40, 50, 60, 70, 80, 90, 100, 110, 120];
    let a = px(1, 1, 1, 0, 0);
    let b = px(1, 1, 1, 2, 0);
    let blob = Blob { representative: a, members: vec![a, b] };
    let m = MarkerColor { r: 0, g: 0, b: 0 };
    assert!(annotate(&mut canvas, 3, 1, &blob, m).is_ok());
    let after_once = canvas.clone();
    assert!(annotate(&mut canvas, 3, 1, &blob, m).is_ok());
    assert_eq!(canvas, after_once);
}

#[test]
fn annotate_out_of_bounds_fails_and_leaves_canvas() {
    let mut canvas: Vec<u8> = vec![1, 2, 3, 4, 5, 6, 7, 8];
    let member = px(9, 9, 9, 2, 0);
    let blob = Blob { representative: member, members: vec![member] };
    let m = MarkerColor { r: 0, g: 0, b: 0 };
    let r = annotate(&mut canvas, 2, 1, &blob, m);
    assert!(matches!(r, Err(BlobError::OutOfBounds)));
    assert_eq!(canvas, vec![1, 2, 3, 4, 5, 6, 7, 8]);
}

#[test]
fn whole_pipeline_marks_the_dominant_color() {
    // Six pixels: four near-black, one mid-gray, one white. The largest
    // dark blob wins and is painted red.
    let bytes: Vec<u8> = vec![
        0, 0, 0, 9, 2, 2, 2, 9, 120, 120, 120, 9, 1, 1, 1, 9, 255, 255, 255, 9, 3, 3, 3, 9,
    ];
    let grid = PixelGrid::from_bytes(&bytes, 3, 2, &plain_cfg()).unwrap();
    let set = cluster(&grid, sim_cfg());
    let cfg = FilterConfig { min_size: 2, luminance_threshold: Some(1_000_000) };
    let mut kept = set.filter(&cfg);
    let picked = kept.extract_top_k(1);
    assert_eq!(picked.len(), 1);
    assert_eq!(picked[0].members.len(), 4);
    let mut canvas = bytes.clone();
    let m = MarkerColor { r: 200, g: 0, b: 0 };
    assert!(annotate(&mut canvas, 3, 2, &picked[0], m).is_ok());
    // the four near-black chunks are painted, the fourth byte kept
    for i in [0usize, 1, 3, 5] {
        assert_eq!(&canvas[4 * i..4 * i + 4], &[200, 0, 0, 9]);
    }
    // the gray and white chunks are untouched
    assert_eq!(&canvas[8..12], &[120, 120, 120, 9]);
    assert_eq!(&canvas[16..20], &[255, 255, 255, 9]);
}

#[test]
fn extracting_zero_blobs_changes_nothing() {
    let mut set = BlobSet { blobs: vec![gray_blob(10, 2), gray_blob(40, 1)] };
    let picked = set.extract_top_k(0);
    assert_eq!(picked.len(), 0);
    assert_eq!(set.blobs.len(), 2);
}

#[test]
fn find_largest_with_all_sizes_equal_returns_the_first() {
    let set = BlobSet { blobs: vec![gray_blob(10, 2), gray_blob(40, 2), gray_blob(70, 2)] };
    let largest = set.find_largest().unwrap();
    assert_eq!(largest.representative.r, 10);
}

#[test]
fn blob_set_len_counts_blobs() {
    let set = BlobSet { blobs: vec![gray_blob(10, 1), gray_blob(40, 2)] };
    assert_eq!(set.len(), 2);
}

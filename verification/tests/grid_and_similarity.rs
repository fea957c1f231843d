use blobseg::error::BlobError;
use blobseg::grid::{GridConfig, PixelGrid};
use blobseg::pixel::{luminance, Pixel};
use blobseg::similarity::{is_similar, SimilarityConfig};

fn px(r: u8, g: u8, b: u8, x: i32, y: i32) -> Pixel {
    Pixel { r, g, b, x, y }
}

fn plain_cfg() -> GridConfig {
    GridConfig { sample_stride: 1, min_luminance: None, max_luminance: None }
}

#[test]
fn positions_come_from_the_linear_index() {
    let bytes: Vec<u8> = vec![
        10, 11, 12, 0, 20, 21, 22, 0, 30, 31, 32, 0, 40, 41, 42, 0,
    ];
    let grid = PixelGrid::from_bytes(&bytes, 2, 2, &plain_cfg()).unwrap();
    assert_eq!(grid.pixels.len(), 4);
    assert_eq!(grid.pixels[0], px(10, 11, 12, 0, 0));
    assert_eq!(grid.pixels[1], px(20, 21, 22, 1, 0));
    assert_eq!(grid.pixels[2], px(30, 31, 32, 0, 1));
    assert_eq!(grid.pixels[3], px(40, 41, 42, 1, 1));
    assert_eq!(grid.width, 2);
    assert_eq!(grid.height, 2);
}

#[test]
fn buffer_length_must_be_a_multiple_of_four() {
    let bytes: Vec<u8> = vec![1, 2, 3, 4, 5];
    let r = PixelGrid::from_bytes(&bytes, 2, 1, &plain_cfg());
    assert!(matches!(r, Err(BlobError::MalformedBuffer)));
}

#[test]
fn empty_buffer_gives_empty_grid() {
    let bytes: Vec<u8> = Vec::new();
    let grid = PixelGrid::from_bytes(&bytes, 0, 0, &plain_cfg()).unwrap();
    assert_eq!(grid.pixels.len(), 0);
}

#[test]
fn stride_keeps_every_second_pixel() {
    let bytes: Vec<u8> = vec![
        10, 10, 10, 0, 20, 20, 20, 0, 30, 30, 30, 0, 40, 40, 40, 0,
    ];
    let cfg = GridConfig { sample_stride: 2, min_luminance: None, max_luminance: None };
    let grid = PixelGrid::from_bytes(&bytes, 2, 2, &cfg).unwrap();
    assert_eq!(grid.pixels.len(), 2);
    assert_eq!(grid.pixels[0], px(10, 10, 10, 0, 0));
    assert_eq!(grid.pixels[1], px(30, 30, 30, 0, 1));
}

#[test]
fn luminance_prefilter_drops_dark_and_bright_pixels() {
    // Shades 0, 100 and 255: luminance 0, 1_000_000 and 2_550_000.
    let bytes: Vec<u8> = vec![
        0, 0, 0, 0, 100, 100, 100, 0, 255, 255, 255, 0, 100, 100, 100, 0,
    ];
    let cfg = GridConfig {
        sample_stride: 1,
        min_luminance: Some(1),
        max_luminance: Some(2_000_000),
    };
    let grid = PixelGrid::from_bytes(&bytes, 2, 2, &cfg).unwrap();
    assert_eq!(grid.pixels.len(), 2);
    assert_eq!(grid.pixels[0], px(100, 100, 100, 1, 0));
    assert_eq!(grid.pixels[1], px(100, 100, 100, 1, 1));
}

#[test]
fn luminance_uses_the_fixed_point_weights() {
    assert_eq!(luminance(&px(10, 20, 30, 0, 0)), 2126 * 10 + 7152 * 20 + 722 * 30);
    assert_eq!(luminance(&px(255, 255, 255, 0, 0)), 2_550_000);
    assert_eq!(luminance(&px(0, 0, 0, 0, 0)), 0);
}

#[test]
fn similarity_counts_channels_beyond_the_tolerance() {
    let cfg = SimilarityConfig { channel_tolerance: 5, max_different_channels: 1 };
    // difference of exactly the tolerance does not count
    assert!(is_similar(&px(0, 0, 0, 0, 0), &px(5, 5, 5, 1, 0), &cfg));
    // one channel strictly over the tolerance reaches the bound
    assert!(!is_similar(&px(0, 0, 0, 0, 0), &px(6, 0, 0, 1, 0), &cfg));
    // with two channels allowed, one over is still similar
    let loose = SimilarityConfig { channel_tolerance: 5, max_different_channels: 2 };
    assert!(is_similar(&px(0, 0, 0, 0, 0), &px(6, 0, 0, 1, 0), &loose));
    assert!(!is_similar(&px(0, 0, 0, 0, 0), &px(6, 6, 0, 1, 0), &loose));
}

#[test]
fn similarity_is_symmetric_and_reflexive() {
    let cfg = SimilarityConfig { channel_tolerance: 5, max_different_channels: 1 };
    let a = px(1, 2, 3, 0, 0);
    let b = px(9, 2, 3, 1, 0);
    assert_eq!(is_similar(&a, &b, &cfg), is_similar(&b, &a, &cfg));
    assert!(is_similar(&a, &a, &cfg));
}

#[test]
fn zero_allowed_differing_channels_makes_nothing_similar() {
    let cfg = SimilarityConfig { channel_tolerance: 5, max_different_channels: 0 };
    let a = px(1, 2, 3, 0, 0);
    assert!(!is_similar(&a, &a, &cfg));
}

#[test]
fn position_is_ignored_by_similarity() {
    let cfg = SimilarityConfig { channel_tolerance: 5, max_different_channels: 1 };
    assert!(is_similar(&px(7, 7, 7, 0, 0), &px(7, 7, 7, 1000, -1000), &cfg));
}

#[test]
fn error_descriptions_name_the_failure() {
    assert_eq!(
        BlobError::MalformedBuffer.describe(),
        "buffer length is not a multiple of the channel stride"
    );
    assert_eq!(BlobError::EmptySet.describe(), "no blobs to select from");
    assert_eq!(BlobError::OutOfBounds.describe(), "blob member position outside the canvas");
}

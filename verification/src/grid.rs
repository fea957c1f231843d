//! Building the pixel grid from a raw byte buffer.
//!
//! The buffer is the decoder's output: four bytes per pixel (red, green,
//! blue, and one ignored channel), row-major. A pixel's position is computed
//! directly from its linear chunk index `i` as `x = i mod width`,
//! `y = i div width`, never from an incrementally advanced counter.

use vstd::prelude::*;
use vstd::arithmetic::div_mod::{
    lemma_div_is_ordered,
    lemma_div_multiples_vanish,
    lemma_div_pos_is_pos,
    lemma_fundamental_div_mod,
    lemma_mod_division_less_than_divisor,
    lemma_multiply_divide_lt,
};
use crate::error::BlobError;
use crate::pixel::{luminance, spec_luminance, Pixel};

verus! {

/// Options applied while building the grid. Luminance bounds are in the
/// fixed-point scale of [`spec_luminance`].
#[derive(Clone, Copy, Debug)]
pub struct GridConfig {
    /// Keep only every `sample_stride`-th pixel (chunk indices divisible by
    /// the stride); 1 keeps every pixel. Must be at least 1.
    pub sample_stride: usize,
    /// If set, drop pixels whose luminance is strictly below this bound.
    pub min_luminance: Option<u32>,
    /// If set, drop pixels whose luminance is strictly above this bound.
    pub max_luminance: Option<u32>,
}

impl Default for GridConfig {
    /// Keep every pixel: stride 1 and no luminance bounds.
    fn default() -> (c: Self)
        ensures
            c.sample_stride == 1,
            c.min_luminance is None,
            c.max_luminance is None,
    {
        GridConfig { sample_stride: 1, min_luminance: None, max_luminance: None }
    }
}

/// The pixel decoded from the byte chunk at index `i`: channels from the
/// first three bytes of the chunk, position from the linear index.
pub open spec fn chunk_pixel(bytes: Seq<u8>, width: usize, i: int) -> Pixel {
    Pixel {
        r: bytes[4 * i],
        g: bytes[4 * i + 1],
        b: bytes[4 * i + 2],
        x: (i % (width as int)) as i32,
        y: (i / (width as int)) as i32,
    }
}

/// Whether the pixel at chunk index `i` survives decimation and the
/// luminance pre-filter.
pub open spec fn spec_keep(bytes: Seq<u8>, width: usize, cfg: GridConfig, i: int) -> bool {
    &&& i % (cfg.sample_stride as int) == 0
    &&& (cfg.min_luminance matches Some(m) ==> spec_luminance(chunk_pixel(bytes, width, i)) >= m)
    &&& (cfg.max_luminance matches Some(m) ==> spec_luminance(chunk_pixel(bytes, width, i)) <= m)
}

/// The pixels kept from the first `n` chunks, in chunk order.
pub open spec fn grid_prefix(bytes: Seq<u8>, width: usize, cfg: GridConfig, n: int) -> Seq<Pixel>
    decreases n,
{
    if n <= 0 {
        Seq::empty()
    } else {
        let rest = grid_prefix(bytes, width, cfg, n - 1);
        if spec_keep(bytes, width, cfg, n - 1) {
            rest.push(chunk_pixel(bytes, width, n - 1))
        } else {
            rest
        }
    }
}

/// The full grid decoded from `bytes`: the kept pixels of all
/// `bytes.len() / 4` chunks, in row-major order.
pub open spec fn spec_grid(bytes: Seq<u8>, width: usize, cfg: GridConfig) -> Seq<Pixel> {
    grid_prefix(bytes, width, cfg, bytes.len() as int / 4)
}

/// The ordered pixels decoded from one image, read-only after construction.
pub struct PixelGrid {
    /// The kept pixels, in row-major chunk order.
    pub pixels: Vec<Pixel>,
    /// Width of the source image in pixels.
    pub width: usize,
    /// Height of the source image in pixels.
    pub height: usize,
}

impl View for PixelGrid {
    type V = Seq<Pixel>;

    open spec fn view(&self) -> Seq<Pixel> {
        self.pixels@
    }
}

impl PixelGrid {
    /// Decodes a raw buffer of 4-byte chunks into a grid.
    ///
    /// Fails with `MalformedBuffer` exactly when the buffer's length is not
    /// a multiple of the 4-byte channel stride; otherwise returns the grid
    /// given by [`spec_grid`]. The bounds in `requires` are what the
    /// decoder's own dimensions guarantee: the buffer holds at most
    /// `width * height` chunks and positions fit in `i32`.
    pub fn from_bytes(bytes: &Vec<u8>, width: usize, height: usize, cfg: &GridConfig) -> (r: Result<
        PixelGrid,
        BlobError,
    >)
        requires
            cfg.sample_stride >= 1,
            width as int <= i32::MAX as int,
            height as int <= i32::MAX as int,
            bytes@.len() <= 4 * ((width as int) * (height as int)),
        ensures
            r is Ok <==> bytes@.len() % 4 == 0,
            r matches Ok(g) ==> g@ == spec_grid(bytes@, width, *cfg) && g.width == width
                && g.height == height,
            r matches Err(e) ==> e == BlobError::MalformedBuffer,
    {
        if bytes.len() % 4 != 0 {
            return Err(BlobError::MalformedBuffer);
        }
        let len = bytes.len();
        let n = len / 4;
        assert(n <= (width as int) * (height as int)) by {
            let wh = (width as int) * (height as int);
            lemma_div_is_ordered(bytes@.len() as int, 4 * wh, 4);
            lemma_div_multiples_vanish(wh, 4);
        }
        let mut pixels: Vec<Pixel> = Vec::new();
        let mut i: usize = 0;
        while i < n
            invariant
                i <= n,
                len == bytes@.len(),
                n == bytes@.len() / 4,
                bytes@.len() % 4 == 0,
                n <= (width as int) * (height as int),
                width as int <= i32::MAX as int,
                height as int <= i32::MAX as int,
                cfg.sample_stride >= 1,
                pixels@ == grid_prefix(bytes@, width, *cfg, i as int),
            decreases n - i,
        {
            assert(width > 0) by {
                if width == 0 {
                    assert((width as int) * (height as int) == 0);
                }
            }
            if i % cfg.sample_stride == 0 {
                assert(4 * (i as int) + 3 < bytes@.len()) by {
                    lemma_fundamental_div_mod(bytes@.len() as int, 4);
                }
                let x = i % width;
                let y = i / width;
                assert(y < height) by {
                    lemma_multiply_divide_lt(i as int, width as int, height as int);
                }
                let p = Pixel {
                    r: bytes[4 * i],
                    g: bytes[4 * i + 1],
                    b: bytes[4 * i + 2],
                    x: x as i32,
                    y: y as i32,
                };
                assert(p == chunk_pixel(bytes@, width, i as int));
                let l = luminance(&p);
                let keep_min = match cfg.min_luminance {
                    Some(m) => l >= m,
                    None => true,
                };
                let keep_max = match cfg.max_luminance {
                    Some(m) => l <= m,
                    None => true,
                };
                if keep_min && keep_max {
                    pixels.push(p);
                }
            }
            i = i + 1;
        }
        Ok(PixelGrid { pixels, width, height })
    }
}

proof fn lemma_grid_prefix_positions(
    bytes: Seq<u8>,
    width: usize,
    height: usize,
    cfg: GridConfig,
    n: int,
)
    requires
        n <= (width as int) * (height as int),
        width as int <= i32::MAX as int,
        height as int <= i32::MAX as int,
    ensures
        forall|k: int|
            0 <= k < grid_prefix(bytes, width, cfg, n).len() ==> 0 <= (#[trigger] grid_prefix(
                bytes,
                width,
                cfg,
                n,
            )[k]).x < width as int && 0 <= grid_prefix(bytes, width, cfg, n)[k].y < height as int,
    decreases n,
{
    if n > 0 {
        lemma_grid_prefix_positions(bytes, width, height, cfg, n - 1);
        let rest = grid_prefix(bytes, width, cfg, n - 1);
        let cur = grid_prefix(bytes, width, cfg, n);
        if spec_keep(bytes, width, cfg, n - 1) {
            assert(width > 0) by {
                if width == 0 {
                    assert((width as int) * (height as int) == 0);
                }
            }
            let i = n - 1;
            lemma_mod_division_less_than_divisor(i, width as int);
            lemma_div_pos_is_pos(i, width as int);
            lemma_multiply_divide_lt(i, width as int, height as int);
            let p = chunk_pixel(bytes, width, i);
            assert(0 <= p.x < width as int && 0 <= p.y < height as int);
            assert(cur == rest.push(p));
            assert forall|k: int|
                0 <= k < cur.len() implies 0 <= (#[trigger] cur[k]).x < width as int && 0
                <= cur[k].y < height as int by {
                if k < rest.len() {
                    assert(cur[k] == rest[k]);
                } else {
                    assert(cur[k] == p);
                }
            }
        } else {
            assert(cur == rest);
        }
    }
}

/// Every pixel of a decoded grid sits within the image's own dimensions,
/// so a grid position can never leave a canvas of the same size.
pub proof fn lemma_grid_positions_in_bounds(
    bytes: Seq<u8>,
    width: usize,
    height: usize,
    cfg: GridConfig,
)
    requires
        bytes.len() <= 4 * ((width as int) * (height as int)),
        width as int <= i32::MAX as int,
        height as int <= i32::MAX as int,
    ensures
        forall|k: int|
            0 <= k < spec_grid(bytes, width, cfg).len() ==> 0 <= (#[trigger] spec_grid(
                bytes,
                width,
                cfg,
            )[k]).x < width as int && 0 <= spec_grid(bytes, width, cfg)[k].y < height as int,
{
    let wh = (width as int) * (height as int);
    assert(bytes.len() as int / 4 <= wh) by {
        lemma_div_is_ordered(bytes.len() as int, 4 * wh, 4);
        lemma_div_multiples_vanish(wh, 4);
    }
    lemma_grid_prefix_positions(bytes, width, height, cfg, bytes.len() as int / 4);
}

} // verus!

//! 4-bit-per-pixel planar SNES tile graphics.
use vstd::prelude::*;
use crate::compression::{decompress, decompress_spec};

verus! {

/// Width and height of one graphics tile, in pixels.
pub const GFX_TILE_WIDTH: usize = 8;

/// Pixels in one tile.
pub const TILE_PIXELS: usize = 64;

/// Bytes of one tile on the wire.
pub const TILE_BYTES: usize = 32;

/// Tiles in one row of the sheet that `Gfx::to_indexed_colors` lays out.
pub const SHEET_TILES_PER_ROW: usize = 16;

/// Decoded graphics: pixel `(x, y)` of tile `t` is `pixels[64 * t + 8 * y + x]`,
/// a color index below 16.
#[derive(Debug, Clone)]
pub struct Gfx {
    pub pixels: Vec<u8>,
}

/// Why graphics could not be decoded.
#[derive(Debug, Clone, Copy, PartialEq, Eq, Structural)]
pub enum GfxError {
    MalformedStream,
    WrongLength,
}

/// Bit `k` of `v`.
pub open spec fn bit(v: u8, k: u8) -> u8 {
    (v >> k) & 1u8
}

proof fn lemma_bit_le_one(v: u8, k: u8)
    ensures
        bit(v, k) <= 1,
{
    assert(((v >> k) & 1u8) <= 1u8) by (bit_vector);
}

/// Pixel `(x, y)` of the tile whose 32 bytes start at `base`: bit `7 - x` of
/// the four bitplanes of row `y`.
pub open spec fn planar_pixel(b: Seq<u8>, base: int, x: int, y: int) -> u8 {
    let k = (7 - x) as u8;
    (bit(b[base + 2 * y], k) + 2 * bit(b[base + 2 * y + 1], k) + 4 * bit(b[base + 16 + 2 * y], k)
        + 8 * bit(b[base + 17 + 2 * y], k)) as u8
}

/// The pixels of every whole tile in `b`, tile after tile.
pub open spec fn unpack_spec(b: Seq<u8>) -> Seq<u8> {
    Seq::new(
        (b.len() / 32 * 64) as nat,
        |k: int| planar_pixel(b, k / 64 * 32, k % 8, k % 64 / 8),
    )
}

impl Gfx {
    /// Whole tiles, every pixel a color index below 16.
    pub open spec fn wf(&self) -> bool {
        self.pixels@.len() % 64 == 0 && forall|i: int|
            0 <= i < self.pixels@.len() ==> #[trigger] self.pixels@[i] < 16
    }

    /// Number of tiles.
    pub fn tile_count(&self) -> (r: usize)
        ensures
            r == self.pixels@.len() / 64,
    {
        self.pixels.len() / TILE_PIXELS
    }

    /// Width and height in pixels of the sheet that `to_indexed_colors` lays out.
    pub fn size(&self) -> (r: (usize, usize))
        ensures
            r.0 == 128,
            r.1 == sheet_rows(self.pixels@.len() as int / 64) * 8,
    {
        let tiles = self.pixels.len() / TILE_PIXELS;
        (SHEET_TILES_PER_ROW * GFX_TILE_WIDTH, (tiles / 16 + if tiles % 16 == 0 {
            0
        } else {
            1
        }) * GFX_TILE_WIDTH)
    }

    /// The tiles laid out sixteen to a row, as a row-major sheet of color
    /// indexes; the places after the last tile are 0.
    pub fn to_indexed_colors(&self) -> (r: Vec<u8>)
        ensures
            r@ == sheet_spec(self.pixels@),
    {
        let tiles = self.pixels.len() / TILE_PIXELS;
        let rows = tiles / 16 + if tiles % 16 == 0 {
            0
        } else {
            1
        };
        let mut r: Vec<u8> = Vec::new();
        let mut row: usize = 0;
        while row < rows
            invariant
                tiles == self.pixels@.len() / 64,
                self.pixels@.len() <= usize::MAX,
                rows == sheet_rows(tiles as int),
                row <= rows,
                r@ == sheet_spec(self.pixels@).subrange(0, row * 1024),
            decreases rows - row,
        {
            let mut j: usize = 0;
            while j < 1024
                invariant
                    tiles == self.pixels@.len() / 64,
                    self.pixels@.len() <= usize::MAX,
                    rows == sheet_rows(tiles as int),
                    row < rows,
                    j <= 1024,
                    r@ == sheet_spec(self.pixels@).subrange(0, row * 1024 + j),
                decreases 1024 - j,
            {
                let x = j % 128;
                let tile = row * 16 + x / 8;
                let v = if tile < tiles {
                    assert(tile * 64 + 64 <= self.pixels@.len()) by (nonlinear_arith)
                        requires
                            tile < tiles,
                            tiles == self.pixels@.len() / 64,
                    ;
                    self.pixels[tile * 64 + (j / 128) * 8 + x % 8]
                } else {
                    0
                };
                proof {
                    let k = row * 1024 + j;
                    assert(k % 128 == x && k / 128 == row * 8 + j / 128) by (nonlinear_arith)
                        requires
                            k == row * 1024 + j,
                            x == j % 128,
                            0 <= j < 1024,
                    ;
                    assert((row * 8 + j / 128) / 8 == row && (row * 8 + j / 128) % 8 == j / 128)
                        by (nonlinear_arith)
                        requires
                            0 <= j < 1024,
                    ;
                }
                r.push(v);
                j += 1;
                assert(r@ =~= sheet_spec(self.pixels@).subrange(0, row * 1024 + j));
            }
            row += 1;
        }
        assert(r@ =~= sheet_spec(self.pixels@));
        r
    }
}

/// Rows of a sheet that holds `tiles` tiles, sixteen to a row.
pub open spec fn sheet_rows(tiles: int) -> int {
    tiles / 16 + if tiles % 16 == 0 {
        0int
    } else {
        1int
    }
}

/// The sheet that `Gfx::to_indexed_colors` lays out for `pixels`.
pub open spec fn sheet_spec(pixels: Seq<u8>) -> Seq<u8> {
    let tiles = pixels.len() / 64;
    Seq::new(
        (sheet_rows(tiles as int) * 1024) as nat,
        |k: int|
            {
                let x = k % 128;
                let y = k / 128;
                let tile = (y / 8) * 16 + x / 8;
                if tile < tiles {
                    pixels[tile * 64 + (y % 8) * 8 + x % 8]
                } else {
                    0u8
                }
            },
    )
}

/// Unpacks planar 4bpp tiles into one color index per pixel.
pub fn unpack_4bpp(b: &[u8]) -> (r: Result<Gfx, GfxError>)
    ensures
        r.is_ok() <==> b@.len() % 32 == 0,
        r.is_ok() ==> r.unwrap().pixels@ == unpack_spec(b@) && r.unwrap().wf(),
{
    if b.len() % TILE_BYTES != 0 {
        return Err(GfxError::WrongLength);
    }
    let tiles = b.len() / TILE_BYTES;
    let mut pixels: Vec<u8> = Vec::new();
    let mut t: usize = 0;
    while t < tiles
        invariant
            b@.len() % 32 == 0,
            tiles == b@.len() / 32,
            b@.len() <= usize::MAX,
            t <= tiles,
            pixels@ == unpack_spec(b@).subrange(0, t * 64),
            forall|i: int| 0 <= i < pixels@.len() ==> #[trigger] pixels@[i] < 16,
        decreases tiles - t,
    {
        assert(t * 32 + 32 <= b@.len()) by (nonlinear_arith)
            requires
                t < tiles,
                tiles == b@.len() / 32,
        ;
        let base = t * TILE_BYTES;
        let mut j: usize = 0;
        while j < TILE_PIXELS
            invariant
                b@.len() % 32 == 0,
                tiles == b@.len() / 32,
                t < tiles,
                base == t * 32,
                j <= 64,
                pixels@ == unpack_spec(b@).subrange(0, t * 64 + j),
                forall|i: int| 0 <= i < pixels@.len() ==> #[trigger] pixels@[i] < 16,
            decreases 64 - j,
        {
            let x = j % 8;
            let y = j / 8;
            let s = (7 - x) as u8;
            let plane0 = (b[base + 2 * y] >> s) & 1;
            let plane1 = (b[base + 2 * y + 1] >> s) & 1;
            let plane2 = (b[base + 16 + 2 * y] >> s) & 1;
            let plane3 = (b[base + 17 + 2 * y] >> s) & 1;
            proof {
                lemma_bit_le_one(b@[base + 2 * y], s);
                lemma_bit_le_one(b@[base + 2 * y + 1], s);
                lemma_bit_le_one(b@[base + 16 + 2 * y], s);
                lemma_bit_le_one(b@[base + 17 + 2 * y], s);
                let k = t * 64 + j;
                assert(k / 64 * 32 == base && k % 8 == x && k % 64 / 8 == y) by (nonlinear_arith)
                    requires
                        k == t * 64 + j,
                        base == t * 32,
                        0 <= j < 64,
                        x == j % 8,
                        y == j / 8,
                ;
            }
            pixels.push(plane0 + 2 * plane1 + 4 * plane2 + 8 * plane3);
            j += 1;
            assert(pixels@ =~= unpack_spec(b@).subrange(0, t * 64 + j));
        }
        t += 1;
    }
    assert(pixels@ =~= unpack_spec(b@));
    Ok(Gfx { pixels })
}

/// Expands a compressed graphics stream and unpacks its tiles.
pub fn parse_graphics(b: &[u8]) -> (r: Result<Gfx, GfxError>)
    ensures
        r.is_ok() <==> decompress_spec(b@) is Some && decompress_spec(b@).unwrap().len() % 32
            == 0,
        r.is_ok() ==> r.unwrap().wf() && r.unwrap().pixels@ == unpack_spec(
            decompress_spec(b@).unwrap(),
        ),
{
    match decompress(b) {
        Err(_) => Err(GfxError::MalformedStream),
        Ok(raw) => unpack_4bpp(&raw),
    }
}

} // verus!

//! Tile tables: each block is four tile words, and the renderer that turns
//! blocks into color indexes.
use vstd::prelude::*;
use crate::address::u16_at;
use crate::compression::{decompress, decompress_spec};

verus! {

/// Width and height of one block, in pixels.
pub const BLOCK_SIZE: usize = 16;

/// Blocks in one row of the tileset sheet.
pub const TILESET_BLOCKS_PER_ROW: usize = 32;

/// A color index together with the sub-palette that it is read in.
#[derive(Debug, Clone, Copy, PartialEq, Eq, Structural, Default)]
pub struct IndexedColor {
    pub index: usize,
    pub sub_palette: usize,
}

/// A tile table: block `b` is made of the tile words `entries[4 * b .. 4 * b + 4]`
/// (top left, top right, bottom left, bottom right). A tile word holds the
/// tile number in bits 0-9, the sub-palette in bits 10-12, and the horizontal
/// and vertical flips in bits 14 and 15.
#[derive(Debug, Clone)]
pub struct TileTable {
    pub entries: Vec<u16>,
}

impl TileTable {
    /// Whole blocks only.
    pub open spec fn wf(&self) -> bool {
        self.entries@.len() % 4 == 0
    }

    /// Number of blocks.
    pub fn block_count(&self) -> (r: usize)
        ensures
            r == self.entries@.len() / 4,
    {
        self.entries.len() / 4
    }
}

/// Why a tile table could not be decoded.
#[derive(Debug, Clone, Copy, PartialEq, Eq, Structural)]
pub enum TileTableError {
    MalformedStream,
    WrongLength,
}

/// The tile words that a decompressed tile table holds.
pub open spec fn tile_words_spec(b: Seq<u8>) -> Seq<u16> {
    Seq::new((b.len() / 2) as nat, |i: int| u16_at(b, 2 * i) as u16)
}

/// Decodes a decompressed tile table: whole blocks of four little-endian words.
pub fn tile_table_from_bytes(b: &[u8]) -> (r: Result<TileTable, TileTableError>)
    ensures
        r.is_ok() <==> b@.len() % 8 == 0,
        r.is_ok() ==> r.unwrap().entries@ == tile_words_spec(b@) && r.unwrap().wf(),
{
    if b.len() % 8 != 0 {
        return Err(TileTableError::WrongLength);
    }
    let n = b.len() / 2;
    let mut entries: Vec<u16> = Vec::new();
    let mut i: usize = 0;
    while i < n
        invariant
            n == b@.len() / 2,
            b@.len() <= usize::MAX,
            b@.len() % 8 == 0,
            i <= n,
            entries@ == tile_words_spec(b@).subrange(0, i as int),
        decreases n - i,
    {
        entries.push(b[2 * i] as u16 + 256 * b[2 * i + 1] as u16);
        i += 1;
        assert(entries@ =~= tile_words_spec(b@).subrange(0, i as int));
    }
    assert(entries@ =~= tile_words_spec(b@));
    Ok(TileTable { entries })
}

/// Expands a compressed tile table and decodes it.
pub fn parse_tile_table(b: &[u8]) -> (r: Result<TileTable, TileTableError>)
    ensures
        r.is_ok() <==> decompress_spec(b@) is Some && decompress_spec(b@).unwrap().len() % 8
            == 0,
        r.is_ok() ==> r.unwrap().wf() && r.unwrap().entries@ == tile_words_spec(
            decompress_spec(b@).unwrap(),
        ),
{
    match decompress(b) {
        Err(_) => Err(TileTableError::MalformedStream),
        Ok(raw) => tile_table_from_bytes(&raw),
    }
}

/// Pixel `(px, py)` (each below 16) of block `block` of the tile table `tt`,
/// drawn from the tiles of `gfx`. A tile missing from `gfx` draws index 0.
pub open spec fn block_pixel(tt: Seq<u16>, gfx: Seq<u8>, block: int, px: int, py: int) -> IndexedColor {
    let w = tt[4 * block + (py / 8) * 2 + px / 8] as int;
    let tile = w % 1024;
    let sub = w / 1024 % 8;
    let tx = if w / 16384 % 2 == 1 {
        7 - px % 8
    } else {
        px % 8
    };
    let ty = if w / 32768 == 1 {
        7 - py % 8
    } else {
        py % 8
    };
    IndexedColor {
        index: if tile < gfx.len() / 64 {
            gfx[tile * 64 + ty * 8 + tx] as usize
        } else {
            0
        },
        sub_palette: sub as usize,
    }
}

/// Draws pixel `(px, py)` of block `block`.
pub fn render_block_pixel(tt: &TileTable, gfx: &[u8], block: usize, px: usize, py: usize) -> (r:
    IndexedColor)
    requires
        4 * block + 4 <= tt.entries.len(),
        px < 16,
        py < 16,
    ensures
        r == block_pixel(tt.entries@, gfx@, block as int, px as int, py as int),
{
    let w = tt.entries[4 * block + (py / 8) * 2 + px / 8] as usize;
    let tile = w % 1024;
    let tx = if w / 16384 % 2 == 1 {
        7 - px % 8
    } else {
        px % 8
    };
    let ty = if w / 32768 == 1 {
        7 - py % 8
    } else {
        py % 8
    };
    let index = if tile < gfx.len() / 64 {
        assert(tile * 64 + 64 <= gfx@.len()) by (nonlinear_arith)
            requires
                tile < gfx@.len() / 64,
        ;
        gfx[tile * 64 + ty * 8 + tx] as usize
    } else {
        0
    };
    IndexedColor { index, sub_palette: w / 1024 % 8 }
}

/// Rows of a sheet that holds `blocks` blocks, 32 to a row.
pub open spec fn tileset_rows(blocks: int) -> int {
    blocks / 32 + if blocks % 32 == 0 {
        0int
    } else {
        1int
    }
}

/// The tileset sheet: the blocks of `tt` laid out 32 to a row, 512 pixels
/// wide, row-major; the places after the last block are index 0 of
/// sub-palette 0.
pub open spec fn tileset_sheet(tt: Seq<u16>, gfx: Seq<u8>) -> Seq<IndexedColor> {
    let blocks = tt.len() / 4;
    Seq::new(
        (tileset_rows(blocks as int) * 8192) as nat,
        |k: int|
            {
                let x = k % 512;
                let y = k / 512;
                let block = (y / 16) * 32 + x / 16;
                if block < blocks {
                    block_pixel(tt, gfx, block, x % 16, y % 16)
                } else {
                    IndexedColor { index: 0, sub_palette: 0 }
                }
            },
    )
}

/// Width and height in pixels of the tileset sheet of `tt`.
pub fn tileset_size(tt: &TileTable) -> (r: [usize; 2])
    ensures
        r[0] == 512,
        r[1] == tileset_rows(tt.entries@.len() as int / 4) * 16,
{
    let blocks = tt.entries.len() / 4;
    [512, (blocks / 32 + if blocks % 32 == 0 {
        0
    } else {
        1
    }) * BLOCK_SIZE]
}

/// Draws every block of `tt` with the tiles of `gfx` into the tileset sheet.
pub fn tileset_to_indexed_colors(tt: &TileTable, gfx: &Vec<u8>) -> (r: Vec<IndexedColor>)
    ensures
        r@ == tileset_sheet(tt.entries@, gfx@),
{
    let blocks = tt.entries.len() / 4;
    let rows = blocks / 32 + if blocks % 32 == 0 {
        0
    } else {
        1
    };
    let mut r: Vec<IndexedColor> = Vec::new();
    let mut row: usize = 0;
    while row < rows
        invariant
            blocks == tt.entries@.len() / 4,
            tt.entries@.len() <= usize::MAX,
            rows == tileset_rows(blocks as int),
            row <= rows,
            r@ == tileset_sheet(tt.entries@, gfx@).subrange(0, row * 8192),
        decreases rows - row,
    {
        let mut j: usize = 0;
        while j < 8192
            invariant
                blocks == tt.entries@.len() / 4,
                tt.entries@.len() <= usize::MAX,
                rows == tileset_rows(blocks as int),
                row < rows,
                j <= 8192,
                r@ == tileset_sheet(tt.entries@, gfx@).subrange(0, row * 8192 + j),
            decreases 8192 - j,
        {
            let x = j % 512;
            let block = row * 32 + x / 16;
            let v = if block < blocks {
                render_block_pixel(tt, gfx.as_slice(), block, x % 16, j / 512)
            } else {
                IndexedColor { index: 0, sub_palette: 0 }
            };
            proof {
                let k = row * 8192 + j;
                assert(k % 512 == x && k / 512 == row * 16 + j / 512) by (nonlinear_arith)
                    requires
                        k == row * 8192 + j,
                        x == j % 512,
                        0 <= j < 8192,
                ;
                assert((row * 16 + j / 512) / 16 == row && (row * 16 + j / 512) % 16 == j / 512)
                    by (nonlinear_arith)
                    requires
                        0 <= j < 8192,
                ;
            }
            r.push(v);
            j += 1;
            assert(r@ =~= tileset_sheet(tt.entries@, gfx@).subrange(0, row * 8192 + j));
        }
        row += 1;
    }
    assert(r@ =~= tileset_sheet(tt.entries@, gfx@));
    r
}

} // verus!

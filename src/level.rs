//! Level data: the layer-1 blocks and BTS bytes of a room.
use vstd::prelude::*;
use crate::address::{u16_at, u16_bytes};
use crate::tile_table::{block_pixel, render_block_pixel, IndexedColor, TileTable};
use crate::compression::{decompress, decompress_spec};

verus! {

/// The behaviour class of a block, from the top four bits of its word.
#[derive(Debug, Clone, Copy, PartialEq, Eq, Structural, Hash, Default)]
pub enum BlockType {
    #[default]
    Air,
    Slope,
    SpikeAir,
    Treadmill,
    ShootableAir,
    HorizontalExtension,
    UnusedAir,
    BombableAir,
    Solid,
    Door,
    Spike,
    Crumble,
    Shootable,
    VerticalExtension,
    Grapple,
    Bombable,
}

/// The block type with code `v` (below 16).
pub open spec fn block_type_of(v: int) -> BlockType {
    if v == 0 {
        BlockType::Air
    } else if v == 1 {
        BlockType::Slope
    } else if v == 2 {
        BlockType::SpikeAir
    } else if v == 3 {
        BlockType::Treadmill
    } else if v == 4 {
        BlockType::ShootableAir
    } else if v == 5 {
        BlockType::HorizontalExtension
    } else if v == 6 {
        BlockType::UnusedAir
    } else if v == 7 {
        BlockType::BombableAir
    } else if v == 8 {
        BlockType::Solid
    } else if v == 9 {
        BlockType::Door
    } else if v == 10 {
        BlockType::Spike
    } else if v == 11 {
        BlockType::Crumble
    } else if v == 12 {
        BlockType::Shootable
    } else if v == 13 {
        BlockType::VerticalExtension
    } else if v == 14 {
        BlockType::Grapple
    } else {
        BlockType::Bombable
    }
}

/// The code of a block type.
pub open spec fn code_of_block_type(t: BlockType) -> u8 {
    match t {
        BlockType::Air => 0,
        BlockType::Slope => 1,
        BlockType::SpikeAir => 2,
        BlockType::Treadmill => 3,
        BlockType::ShootableAir => 4,
        BlockType::HorizontalExtension => 5,
        BlockType::UnusedAir => 6,
        BlockType::BombableAir => 7,
        BlockType::Solid => 8,
        BlockType::Door => 9,
        BlockType::Spike => 10,
        BlockType::Crumble => 11,
        BlockType::Shootable => 12,
        BlockType::VerticalExtension => 13,
        BlockType::Grapple => 14,
        BlockType::Bombable => 15,
    }
}

impl BlockType {
    /// The block type with code `v`; only the low four bits count.
    pub fn from_code(v: u8) -> (r: BlockType)
        ensures
            r == block_type_of(v as int % 16),
    {
        let v = v % 16;
        if v == 0 {
            BlockType::Air
        } else if v == 1 {
            BlockType::Slope
        } else if v == 2 {
            BlockType::SpikeAir
        } else if v == 3 {
            BlockType::Treadmill
        } else if v == 4 {
            BlockType::ShootableAir
        } else if v == 5 {
            BlockType::HorizontalExtension
        } else if v == 6 {
            BlockType::UnusedAir
        } else if v == 7 {
            BlockType::BombableAir
        } else if v == 8 {
            BlockType::Solid
        } else if v == 9 {
            BlockType::Door
        } else if v == 10 {
            BlockType::Spike
        } else if v == 11 {
            BlockType::Crumble
        } else if v == 12 {
            BlockType::Shootable
        } else if v == 13 {
            BlockType::VerticalExtension
        } else if v == 14 {
            BlockType::Grapple
        } else {
            BlockType::Bombable
        }
    }

    /// The code of this block type.
    pub fn code(&self) -> (r: u8)
        ensures
            r == code_of_block_type(*self),
            r < 16,
            block_type_of(r as int) == *self,
    {
        match self {
            BlockType::Air => 0,
            BlockType::Slope => 1,
            BlockType::SpikeAir => 2,
            BlockType::Treadmill => 3,
            BlockType::ShootableAir => 4,
            BlockType::HorizontalExtension => 5,
            BlockType::UnusedAir => 6,
            BlockType::BombableAir => 7,
            BlockType::Solid => 8,
            BlockType::Door => 9,
            BlockType::Spike => 10,
            BlockType::Crumble => 11,
            BlockType::Shootable => 12,
            BlockType::VerticalExtension => 13,
            BlockType::Grapple => 14,
            BlockType::Bombable => 15,
        }
    }
}

/// A layer-1 block: bits 0-9 of its word are the block number in the tile
/// table, bit 10 flips it horizontally, bit 11 vertically, bits 12-15 are
/// its type.
#[derive(Debug, Clone, Copy, PartialEq, Eq, Structural, Hash, Default)]
pub struct Block {
    pub block_number: u16,
    pub h_flip: bool,
    pub v_flip: bool,
    pub block_type: BlockType,
}

impl Block {
    /// The block number fits in ten bits.
    pub open spec fn valid(self) -> bool {
        self.block_number < 1024
    }
}

/// The block that the word `w` holds.
pub open spec fn block_of_word(w: int) -> Block {
    Block {
        block_number: (w % 1024) as u16,
        h_flip: w / 1024 % 2 == 1,
        v_flip: w / 2048 % 2 == 1,
        block_type: block_type_of(w / 4096 % 16),
    }
}

/// The word that stores `b`.
pub open spec fn word_of_block(b: Block) -> int {
    b.block_number + 1024 * (if b.h_flip {
        1int
    } else {
        0int
    }) + 2048 * (if b.v_flip {
        1int
    } else {
        0int
    }) + 4096 * code_of_block_type(b.block_type)
}

/// Decodes a block word.
pub fn block_from_word(w: u16) -> (r: Block)
    ensures
        r == block_of_word(w as int),
        r.valid(),
{
    Block {
        block_number: w % 1024,
        h_flip: w / 1024 % 2 == 1,
        v_flip: w / 2048 % 2 == 1,
        block_type: BlockType::from_code((w / 4096) as u8),
    }
}

/// Encodes a block as its word.
pub fn block_to_word(b: Block) -> (r: u16)
    requires
        b.valid(),
    ensures
        r as int == word_of_block(b),
{
    let t = b.block_type.code() as u16;
    b.block_number + if b.h_flip {
        1024
    } else {
        0
    } + if b.v_flip {
        2048
    } else {
        0
    } + 4096 * t
}

/// Encoding a valid block and decoding the word gives the block back.
pub proof fn lemma_block_round_trip(b: Block)
    requires
        b.valid(),
    ensures
        block_of_word(word_of_block(b)) == b,
        0 <= word_of_block(b) < 65536,
{
    let w = word_of_block(b);
    let n = b.block_number as int;
    let h: int = if b.h_flip {
        1
    } else {
        0
    };
    let v: int = if b.v_flip {
        1
    } else {
        0
    };
    let t = code_of_block_type(b.block_type) as int;
    assert(t < 16);
    assert(w % 1024 == n && w / 1024 % 2 == h && w / 2048 % 2 == v && w / 4096 % 16 == t)
        by (nonlinear_arith)
        requires
            w == n + 1024 * h + 2048 * v + 4096 * t,
            0 <= n < 1024,
            0 <= h <= 1,
            0 <= v <= 1,
            0 <= t < 16,
    ;
    assert(block_type_of(t) == b.block_type);
}

/// Level data: one layer-1 block and one BTS byte per block position,
/// row-major, and the bytes that follow them kept as they are.
#[derive(Debug, Clone)]
pub struct LevelData {
    pub layer1: Vec<Block>,
    pub bts: Vec<u8>,
    pub layer2: Vec<u8>,
}

/// Why level data could not be decoded.
#[derive(Debug, Clone, Copy, PartialEq, Eq, Structural)]
pub enum LevelError {
    /// The size word does not give two bytes per block of the room.
    SizeMismatch,
    /// The buffer ends before the blocks and BTS bytes do.
    Truncated,
    /// The compressed stream is malformed.
    MalformedStream,
}

/// Whether `b` holds level data for `n` blocks: a size word of `2n`, then
/// `n` block words, then `n` BTS bytes.
pub open spec fn level_bytes_ok(b: Seq<u8>, n: int) -> bool {
    b.len() >= 2 && u16_at(b, 0) == 2 * n && b.len() >= 2 + 3 * n
}

impl LevelData {
    /// One BTS byte per block, every block valid.
    pub open spec fn wf(&self) -> bool {
        self.layer1@.len() == self.bts@.len() && forall|i: int|
            0 <= i < self.layer1@.len() ==> #[trigger] self.layer1@[i].valid()
    }

    /// Decodes decompressed level data for a room of `n` blocks.
    pub fn from_bytes(b: &[u8], n: usize) -> (r: Result<LevelData, LevelError>)
        ensures
            r.is_ok() <==> level_bytes_ok(b@, n as int),
            r is Err && b@.len() >= 2 && u16_at(b@, 0) == 2 * n ==> r == Err::<
                LevelData,
                LevelError,
            >(LevelError::Truncated),
            r is Err && !(b@.len() >= 2 && u16_at(b@, 0) == 2 * n) ==> r == Err::<
                LevelData,
                LevelError,
            >(LevelError::SizeMismatch),
            r.is_ok() ==> {
                let l = r.unwrap();
                &&& l.wf()
                &&& l.layer1@ == Seq::new(
                    n as nat,
                    |i: int| block_of_word(u16_at(b@, 2 + 2 * i)),
                )
                &&& l.bts@ == b@.subrange(2 + 2 * n, 2 + 3 * n)
                &&& l.layer2@ == b@.subrange(2 + 3 * n, b@.len() as int)
            },
    {
        if b.len() < 2 || n > 0x7FFF || (b[0] as usize + 256 * b[1] as usize) != 2 * n {
            return Err(LevelError::SizeMismatch);
        }
        if b.len() - 2 < 3 * n {
            return Err(LevelError::Truncated);
        }
        let mut layer1: Vec<Block> = Vec::new();
        let mut i: usize = 0;
        while i < n
            invariant
                n <= 0x7FFF,
                b@.len() >= 2 + 3 * n,
                i <= n,
                layer1@ == Seq::new(i as nat, |k: int| block_of_word(u16_at(b@, 2 + 2 * k))),
                forall|k: int| 0 <= k < i ==> #[trigger] layer1@[k].valid(),
            decreases n - i,
        {
            let w = b[2 + 2 * i] as u16 + 256 * b[3 + 2 * i] as u16;
            layer1.push(block_from_word(w));
            i += 1;
            assert(layer1@ =~= Seq::new(i as nat, |k: int| block_of_word(u16_at(b@, 2 + 2 * k))));
        }
        let bts = copy_range(b, 2 + 2 * n, 2 + 3 * n);
        let layer2 = copy_range(b, 2 + 3 * n, b.len());
        Ok(LevelData { layer1, bts, layer2 })
    }

    /// Encodes the level data as the size word, the block words, the BTS
    /// bytes and the kept bytes.
    pub fn to_bytes(&self) -> (r: Vec<u8>)
        requires
            self.wf(),
            self.layer1@.len() <= 0x7FFF,
        ensures
            r@ == level_bytes(self.layer1@, self.bts@, self.layer2@),
    {
        let n = self.layer1.len();
        let mut r: Vec<u8> = Vec::new();
        let size = (2 * n) as u16;
        r.push((size % 256) as u8);
        r.push((size / 256) as u8);
        assert(r@ =~= u16_bytes(2 * n));
        let mut i: usize = 0;
        while i < n
            invariant
                self.wf(),
                n == self.layer1@.len(),
                i <= n,
                r@ == u16_bytes(2 * n) + block_words(self.layer1@.subrange(0, i as int)),
            decreases n - i,
        {
            assert(self.layer1@[i as int].valid());
            let w = block_to_word(self.layer1[i]);
            r.push((w % 256) as u8);
            r.push((w / 256) as u8);
            proof {
                let s = self.layer1@.subrange(0, i + 1);
                assert(s.drop_last() =~= self.layer1@.subrange(0, i as int));
                assert(block_words(s) == block_words(s.drop_last()) + u16_bytes(word_of_block(s.last())));
                assert(r@ =~= u16_bytes(2 * n) + block_words(s));
            }
            i += 1;
        }
        assert(self.layer1@.subrange(0, n as int) =~= self.layer1@);
        let mut k: usize = 0;
        let ghost r1 = r@;
        while k < self.bts.len()
            invariant
                r@ == r1 + self.bts@.subrange(0, k as int),
                k <= self.bts@.len(),
            decreases self.bts@.len() - k,
        {
            r.push(self.bts[k]);
            k += 1;
            assert(r@ =~= r1 + self.bts@.subrange(0, k as int));
        }
        assert(self.bts@.subrange(0, k as int) =~= self.bts@);
        let mut k: usize = 0;
        let ghost r2 = r@;
        while k < self.layer2.len()
            invariant
                r@ == r2 + self.layer2@.subrange(0, k as int),
                k <= self.layer2@.len(),
            decreases self.layer2@.len() - k,
        {
            r.push(self.layer2[k]);
            k += 1;
            assert(r@ =~= r2 + self.layer2@.subrange(0, k as int));
        }
        assert(self.layer2@.subrange(0, k as int) =~= self.layer2@);
        r
    }
}

/// Pixel `(px, py)` of a level block drawn from the tile table `tt` and the
/// graphics `gfx`, flipped as the block says; a block number past the tile
/// table draws index 0 of sub-palette 0.
pub open spec fn level_block_pixel(b: Block, tt: Seq<u16>, gfx: Seq<u8>, px: int, py: int) -> IndexedColor {
    let fx = if b.h_flip {
        15 - px
    } else {
        px
    };
    let fy = if b.v_flip {
        15 - py
    } else {
        py
    };
    if (b.block_number as int) < tt.len() / 4 {
        block_pixel(tt, gfx, b.block_number as int, fx, fy)
    } else {
        IndexedColor { index: 0, sub_palette: 0 }
    }
}

/// The picture of a level `width` blocks wide: row-major pixels, sixteen
/// per block side.
pub open spec fn level_picture(layer1: Seq<Block>, width: int, tt: Seq<u16>, gfx: Seq<u8>) -> Seq<IndexedColor> {
    let w = width * 16;
    Seq::new(
        (layer1.len() * 256) as nat,
        |k: int|
            level_block_pixel(
                layer1[(k / w / 16) * width + (k % w) / 16],
                tt,
                gfx,
                (k % w) % 16,
                (k / w) % 16,
            ),
    )
}

impl LevelData {
    /// Draws the level, `width` blocks wide and `height` blocks high, with
    /// the tile table `tt` and the graphics `gfx`.
    pub fn to_indexed_colors(&self, width: usize, height: usize, tt: &TileTable, gfx: &Vec<u8>) -> (r:
        Vec<IndexedColor>)
        requires
            self.layer1@.len() == width * height,
            width * 16 <= usize::MAX,
            height * 16 <= usize::MAX,
        ensures
            r@ == level_picture(self.layer1@, width as int, tt.entries@, gfx@),
    {
        let w = width * 16;
        let h = height * 16;
        let mut r: Vec<IndexedColor> = Vec::new();
        let mut y: usize = 0;
        while y < h
            invariant
                self.layer1.len() == width * height,
                w == width * 16,
                h == height * 16,
                y <= h,
                r@ == level_picture(self.layer1@, width as int, tt.entries@, gfx@).subrange(
                    0,
                    y * w,
                ),
            decreases h - y,
        {
            let mut x: usize = 0;
            while x < w
                invariant
                    self.layer1.len() == width * height,
                    w == width * 16,
                    h == height * 16,
                    y < h,
                    x <= w,
                    r@ == level_picture(self.layer1@, width as int, tt.entries@, gfx@).subrange(
                        0,
                        y * w + x,
                    ),
                decreases w - x,
            {
                let ghost k = y * w + x;
                proof {
                    assert(k / (w as int) == y && k % (w as int) == x) by (nonlinear_arith)
                        requires
                            k == y * w + x,
                            0 <= x < w,
                    ;
                    assert((y / 16) * width + x / 16 < width * height) by (nonlinear_arith)
                        requires
                            y < height * 16,
                            x < width * 16,
                    ;
                    assert(k + 1 <= self.layer1@.len() * 256) by (nonlinear_arith)
                        requires
                            k == y * w + x,
                            y < h,
                            x < w,
                            w == width * 16,
                            h == height * 16,
                            self.layer1@.len() == width * height,
                    ;
                }
                let i = (y / 16) * width + x / 16;
                let b = self.layer1[i];
                let px = x % 16;
                let py = y % 16;
                let fx = if b.h_flip {
                    15 - px
                } else {
                    px
                };
                let fy = if b.v_flip {
                    15 - py
                } else {
                    py
                };
                let c = if (b.block_number as usize) < tt.entries.len() / 4 {
                    render_block_pixel(tt, gfx.as_slice(), b.block_number as usize, fx, fy)
                } else {
                    IndexedColor { index: 0, sub_palette: 0 }
                };
                r.push(c);
                x += 1;
                assert(r@ =~= level_picture(self.layer1@, width as int, tt.entries@, gfx@).subrange(
                    0,
                    y * w + x,
                ));
            }
            y += 1;
            assert(y * w == (y - 1) * w + w) by (nonlinear_arith);
        }
        assert(h * w == self.layer1@.len() * 256) by (nonlinear_arith)
            requires
                w == width * 16,
                h == height * 16,
                self.layer1@.len() == width * height,
        ;
        assert(r@ =~= level_picture(self.layer1@, width as int, tt.entries@, gfx@));
        r
    }
}

/// Expands compressed level data and decodes it for a room of `n` blocks.
pub fn parse_level_data(b: &[u8], n: usize) -> (r: Result<LevelData, LevelError>)
    ensures
        r.is_ok() <==> decompress_spec(b@) is Some && level_bytes_ok(
            decompress_spec(b@).unwrap(),
            n as int,
        ),
        decompress_spec(b@) is None ==> r == Err::<LevelData, LevelError>(LevelError::MalformedStream),
        r.is_ok() ==> {
            let l = r.unwrap();
            &&& l.wf()
            &&& level_bytes(l.layer1@, l.bts@, l.layer2@) == decompress_spec(b@).unwrap()
        },
{
    match decompress(b) {
        Err(_) => Err(LevelError::MalformedStream),
        Ok(raw) => {
            let r = LevelData::from_bytes(raw.as_slice(), n);
            proof {
                if r.is_ok() {
                    lemma_level_decode_bytes(raw@, n as int);
                    let d = decode_level(raw@);
                    let l = r.unwrap();
                    assert(l.layer1@ =~= d.0);
                    assert(l.bts@ =~= d.1);
                    assert(l.layer2@ =~= d.2);
                }
            }
            r
        },
    }
}

/// The little-endian words of `blocks`, in order.
pub open spec fn block_words(blocks: Seq<Block>) -> Seq<u8>
    decreases blocks.len(),
{
    if blocks.len() == 0 {
        Seq::empty()
    } else {
        block_words(blocks.drop_last()) + u16_bytes(word_of_block(blocks.last()))
    }
}

/// The bytes that store level data.
pub open spec fn level_bytes(layer1: Seq<Block>, bts: Seq<u8>, layer2: Seq<u8>) -> Seq<u8> {
    u16_bytes(2 * layer1.len() as int) + block_words(layer1) + bts + layer2
}

/// The byte layout of `block_words`: two bytes per block, in order.
pub proof fn lemma_block_words_index(blocks: Seq<Block>)
    ensures
        block_words(blocks).len() == 2 * blocks.len(),
        forall|i: int, j: int|
            0 <= i < blocks.len() && 0 <= j < 2 ==> #[trigger] block_words(blocks)[2 * i + j]
                == u16_bytes(word_of_block(blocks[i]))[j],
    decreases blocks.len(),
{
    if blocks.len() > 0 {
        let d = blocks.drop_last();
        lemma_block_words_index(d);
        assert forall|i: int, j: int|
            0 <= i < blocks.len() && 0 <= j < 2 implies #[trigger] block_words(blocks)[2 * i + j]
                == u16_bytes(word_of_block(blocks[i]))[j] by {
            if i < blocks.len() - 1 {
                assert(d[i] == blocks[i]);
            }
        }
    }
}

/// The blocks, BTS bytes and kept bytes that level bytes hold, with the
/// block count read from the size word.
pub open spec fn decode_level(b: Seq<u8>) -> (Seq<Block>, Seq<u8>, Seq<u8>) {
    let n = u16_at(b, 0) / 2;
    (
        Seq::new(n as nat, |i: int| block_of_word(u16_at(b, 2 + 2 * i))),
        b.subrange(2 + 2 * n, 2 + 3 * n),
        b.subrange(2 + 3 * n, b.len() as int),
    )
}

proof fn lemma_word_bytes(w: int)
    requires
        0 <= w < 65536,
    ensures
        u16_bytes(w)[0] + 256 * u16_bytes(w)[1] == w,
{
    assert(w % 256 + 256 * (w / 256 % 256) == w) by (nonlinear_arith)
        requires
            0 <= w < 65536,
    ;
}

/// Encoding level data and decoding the bytes gives it back.
pub proof fn lemma_level_bytes_decode(layer1: Seq<Block>, bts: Seq<u8>, layer2: Seq<u8>)
    requires
        layer1.len() == bts.len(),
        layer1.len() <= 0x7FFF,
        forall|i: int| 0 <= i < layer1.len() ==> (#[trigger] layer1[i]).valid(),
    ensures
        decode_level(level_bytes(layer1, bts, layer2)) == (layer1, bts, layer2),
{
    let n = layer1.len() as int;
    let b = level_bytes(layer1, bts, layer2);
    lemma_block_words_index(layer1);
    lemma_word_bytes(2 * n);
    assert(b[0] == u16_bytes(2 * n)[0] && b[1] == u16_bytes(2 * n)[1]);
    assert(u16_at(b, 0) == 2 * n);
    let d = decode_level(b);
    assert forall|i: int| 0 <= i < n implies #[trigger] d.0[i] == layer1[i] by {
        lemma_block_round_trip(layer1[i]);
        lemma_word_bytes(word_of_block(layer1[i]));
        assert(b[2 + 2 * i] == block_words(layer1)[2 * i + 0]);
        assert(b[2 + 2 * i + 1] == block_words(layer1)[2 * i + 1]);
    }
    assert(d.0 =~= layer1);
    assert(d.1 =~= bts);
    assert(d.2 =~= layer2);
}

/// Decoding level bytes that hold `n` blocks and encoding the result gives
/// the bytes back.
pub proof fn lemma_level_decode_bytes(b: Seq<u8>, n: int)
    requires
        level_bytes_ok(b, n),
        0 <= n <= 0x7FFF,
    ensures
        ({
            let d = decode_level(b);
            &&& d.0.len() == n
            &&& level_bytes(d.0, d.1, d.2) == b
        }),
{
    let d = decode_level(b);
    let lb = level_bytes(d.0, d.1, d.2);
    lemma_block_words_index(d.0);
    lemma_word_bytes(2 * n);
    assert forall|k: int| 0 <= k < b.len() implies #[trigger] lb[k] == b[k] by {
        if k < 2 {
            assert(u16_bytes(2 * n) == u16_bytes(u16_at(b, 0)));
            assert(b[0] + 256 * b[1] == 2 * n);
            assert(u16_bytes(2 * n)[0] == b[0] && u16_bytes(2 * n)[1] == b[1]) by (nonlinear_arith)
                requires
                    b[0] + 256 * b[1] == 2 * n,
                    0 <= b[0] < 256,
                    0 <= b[1] < 256,
                    u16_bytes(2 * n)[0] == (2 * n) % 256,
                    u16_bytes(2 * n)[1] == (2 * n) / 256 % 256,
            ;
        } else if k < 2 + 2 * n {
            let i = (k - 2) / 2;
            let j = (k - 2) % 2;
            let w = u16_at(b, 2 + 2 * i);
            assert(0 <= w < 65536);
            assert(word_of_block(block_of_word(w)) == w) by {
                let t = w / 4096 % 16;
                let bt = block_type_of(t);
                assert(code_of_block_type(bt) == t);
                assert(w == w % 1024 + 1024 * (w / 1024 % 2) + 2048 * (w / 2048 % 2) + 4096 * (w
                    / 4096 % 16)) by (nonlinear_arith)
                    requires
                        0 <= w < 65536,
                ;
            }
            assert(lb[k] == block_words(d.0)[2 * i + j]);
            assert(u16_bytes(w)[0] == b[2 + 2 * i] && u16_bytes(w)[1] == b[3 + 2 * i]) by (nonlinear_arith)
                requires
                    w == b[2 + 2 * i] + 256 * b[3 + 2 * i],
                    0 <= b[2 + 2 * i] < 256,
                    0 <= b[3 + 2 * i] < 256,
                    u16_bytes(w)[0] == w % 256,
                    u16_bytes(w)[1] == w / 256 % 256,
            ;
        }
    }
    assert(lb =~= b);
}

/// A copy of `b[from..to]`.
pub fn copy_range(b: &[u8], from: usize, to: usize) -> (r: Vec<u8>)
    requires
        from <= to <= b@.len(),
    ensures
        r@ == b@.subrange(from as int, to as int),
{
    let mut r: Vec<u8> = Vec::new();
    let mut k = from;
    while k < to
        invariant
            from <= k <= to <= b@.len(),
            r@ == b@.subrange(from as int, k as int),
        decreases to - k,
    {
        r.push(b[k]);
        k += 1;
        assert(r@ =~= b@.subrange(from as int, k as int));
    }
    r
}

} // verus!

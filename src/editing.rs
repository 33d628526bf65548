//! Pixel and block operations that an editor performs on decoded data.
use vstd::prelude::*;
use crate::level::{block_type_of, Block, BlockType, LevelData};
use crate::palette::{rgb_of, Palette, Rgb888};
use crate::tile_table::IndexedColor;

verus! {

/// Channel `c` (0 red, 1 green, 2 blue, 3 alpha) of `color` as opaque RGBA.
pub open spec fn rgba_channel(color: Rgb888, c: int) -> u8 {
    if c == 0 {
        color.r
    } else if c == 1 {
        color.g
    } else if c == 2 {
        color.b
    } else {
        255
    }
}

/// The opaque RGBA bytes of `colors`, four per color.
pub open spec fn rgba_spec(colors: Seq<Rgb888>) -> Seq<u8> {
    Seq::new((colors.len() * 4) as nat, |k: int| rgba_channel(colors[k / 4], k % 4))
}

/// Turns colors into opaque RGBA bytes.
pub fn rgb888s_to_rgba(colors: &Vec<Rgb888>) -> (r: Vec<u8>)
    ensures
        r@ == rgba_spec(colors@),
{
    let mut r: Vec<u8> = Vec::new();
    let mut i: usize = 0;
    while i < colors.len()
        invariant
            i <= colors@.len(),
            r@ == rgba_spec(colors@).subrange(0, 4 * i),
        decreases colors@.len() - i,
    {
        let c = colors[i];
        r.push(c.r);
        r.push(c.g);
        r.push(c.b);
        r.push(255);
        i += 1;
        assert(r@ =~= rgba_spec(colors@).subrange(0, 4 * i));
    }
    assert(r@ =~= rgba_spec(colors@));
    r
}

/// Whether every indexed color names a color of a palette.
pub open spec fn indexes_valid(colors: Seq<IndexedColor>) -> bool {
    forall|i: int| 0 <= i < colors.len() ==> (#[trigger] colors[i]).sub_palette < 8 && colors[i].index < 16
}

/// The colors that `colors` name in `palette`.
pub open spec fn resolve_spec(colors: Seq<IndexedColor>, palette: Seq<crate::palette::Bgr555>) -> Seq<Rgb888> {
    Seq::new(colors.len(), |i: int| rgb_of(palette[colors[i].sub_palette * 16 + colors[i].index]))
}

/// Looks every indexed color up in `palette`.
pub fn indexed_colors_to_rgb(colors: &Vec<IndexedColor>, palette: &Palette) -> (r: Vec<Rgb888>)
    requires
        palette.wf(),
        indexes_valid(colors@),
    ensures
        r@ == resolve_spec(colors@, palette.colors@),
{
    let mut r: Vec<Rgb888> = Vec::new();
    let mut i: usize = 0;
    while i < colors.len()
        invariant
            palette.wf(),
            indexes_valid(colors@),
            i <= colors@.len(),
            r@ == resolve_spec(colors@, palette.colors@).subrange(0, i as int),
        decreases colors@.len() - i,
    {
        let c = colors[i];
        assert(c.sub_palette < 8 && c.index < 16);
        r.push(crate::palette::to_rgb888(palette.color(c.sub_palette, c.index)));
        i += 1;
        assert(r@ =~= resolve_spec(colors@, palette.colors@).subrange(0, i as int));
    }
    assert(r@ =~= resolve_spec(colors@, palette.colors@));
    r
}

/// Looks every indexed color up in `palette` and gives opaque RGBA bytes.
pub fn indexed_colors_to_rgba(colors: &Vec<IndexedColor>, palette: &Palette) -> (r: Vec<u8>)
    requires
        palette.wf(),
        indexes_valid(colors@),
    ensures
        r@ == rgba_spec(resolve_spec(colors@, palette.colors@)),
{
    let rgb = indexed_colors_to_rgb(colors, palette);
    rgb888s_to_rgba(&rgb)
}

/// The `w` by `h` rectangle at `(x, y)` of a row-major picture `width` wide.
pub open spec fn crop_spec<T>(pixels: Seq<T>, width: int, x: int, y: int, w: int, h: int) -> Seq<T> {
    Seq::new((w * h) as nat, |k: int| pixels[(y + k / w) * width + x + k % w])
}

/// Copies the `w` by `h` rectangle at `(x, y)` out of a row-major picture
/// `width` wide.
pub fn crop<T: Copy>(pixels: &Vec<T>, width: usize, x: usize, y: usize, w: usize, h: usize) -> (r: Vec<T>)
    requires
        x + w <= width,
        (y + h) * width <= pixels@.len(),
    ensures
        r@ == crop_spec(pixels@, width as int, x as int, y as int, w as int, h as int),
{
    let mut r: Vec<T> = Vec::new();
    let mut j: usize = 0;
    while j < h
        invariant
            x + w <= width,
            (y + h) * width <= pixels.len(),
            j <= h,
            r@ == crop_spec(pixels@, width as int, x as int, y as int, w as int, h as int).subrange(
                0,
                j * w,
            ),
        decreases h - j,
    {
        let mut i: usize = 0;
        while i < w
            invariant
                x + w <= width,
                (y + h) * width <= pixels.len(),
                j < h,
                i <= w,
                r@ == crop_spec(pixels@, width as int, x as int, y as int, w as int, h as int).subrange(
                    0,
                    j * w + i,
                ),
            decreases w - i,
        {
            proof {
                let k = j * w + i;
                assert(k / (w as int) == j && k % (w as int) == i) by (nonlinear_arith)
                    requires
                        k == j * w + i,
                        0 <= i < w,
                ;
                assert((y + j) * width + x + i < (y + h) * width) by (nonlinear_arith)
                    requires
                        j < h,
                        x + i < width,
                ;
                assert((y + j) * width <= (y + h) * width) by (nonlinear_arith)
                    requires
                        j < h,
                ;
            }
            assert(width > 0);
            assert(y + j <= (y + j) * width) by (nonlinear_arith)
                requires
                    width > 0,
            ;
            let row = (y + j) * width;
            let ghost want = crop_spec(pixels@, width as int, x as int, y as int, w as int, h as int);
            proof {
                let k = j * w + i;
                assert(k / (w as int) == j && k % (w as int) == i) by (nonlinear_arith)
                    requires
                        k == j * w + i,
                        0 <= i < w,
                ;
                assert(k < w * h) by (nonlinear_arith)
                    requires
                        k == j * w + i,
                        0 <= i < w,
                        j < h,
                ;
                assert(want[k] == pixels@[(y + k / (w as int)) * width + x + k % (w as int)]);
            }
            assert(want[j * w + i] == pixels@[row + x + i]);
            r.push(pixels[row + x + i]);
            i += 1;
            assert(r@ =~= crop_spec(pixels@, width as int, x as int, y as int, w as int, h as int).subrange(
                0,
                j * w + i,
            ));
        }
        j += 1;
        assert(j * w == (j - 1) * w + w) by (nonlinear_arith);
    }
    assert(h * w == w * h) by (nonlinear_arith);
    assert(r@ =~= crop_spec(pixels@, width as int, x as int, y as int, w as int, h as int));
    r
}

/// What `paste` leaves at position `i` of a picture `width` wide: pixel `k`
/// of the pasted image (`sw` wide, its top left at `(x, y)`) where it lands,
/// else what was there.
pub open spec fn pasted<T>(old: Seq<T>, image: Seq<T>, width: int, x: int, y: int, sw: int, i: int) -> T {
    let col = i % width;
    let row = i / width;
    let k = (row - y) * sw + (col - x);
    if x <= col < x + sw && y <= row && 0 <= k < image.len() {
        image[k]
    } else {
        old[i]
    }
}

/// Pastes a row-major image `sw` pixels wide, whose length is a whole number
/// of rows, into a picture `width` pixels wide with its top left at `(x, y)`.
pub fn paste<T: Copy>(pixels: &mut Vec<T>, width: usize, x: usize, y: usize, sw: usize, image: &Vec<T>)
    requires
        sw > 0,
        image.len() % sw == 0,
        x + sw <= width,
        (y + image.len() / sw) * width <= old(pixels).len(),
    ensures
        final(pixels)@ == Seq::new(
            old(pixels)@.len(),
            |i: int| pasted(old(pixels)@, image@, width as int, x as int, y as int, sw as int, i),
        ),
{
    let ghost old_p = pixels@;
    let n = pixels.len();
    let mut k: usize = 0;
    proof {
        assert(pixels@ =~= Seq::new(n as nat, |i: int| pasted(old_p, image@.subrange(0, 0), width as int, x as int, y as int, sw as int, i)));
    }
    while k < image.len()
        invariant
            sw > 0,
            image.len() % sw == 0,
            x + sw <= width,
            (y + image.len() / sw) * width <= n,
            n == old_p.len(),
            k <= image@.len(),
            pixels@ == Seq::new(
                n as nat,
                |i: int| pasted(old_p, image@.subrange(0, k as int), width as int, x as int, y as int, sw as int, i),
            ),
        decreases image@.len() - k,
    {
        let ghost row: int = y + k / sw;
        let ghost col: int = x + k % sw;
        proof {
            assert(k / sw < image.len() / sw) by (nonlinear_arith)
                requires
                    k < image.len(),
                    image.len() % sw == 0,
                    sw > 0,
            ;
            assert(row * width + col < n) by (nonlinear_arith)
                requires
                    row == y + k / sw,
                    col == x + k % sw,
                    k / sw < image.len() / sw,
                    x + sw <= width,
                    (y + image.len() / sw) * width <= n,
                    sw > 0,
            ;
            assert(row * width <= n) by (nonlinear_arith)
                requires
                    row * width + col < n,
                    col >= 0,
            ;
            assert(row <= row * width) by (nonlinear_arith)
                requires
                    width >= 1,
                    row >= 0,
            ;
        }
        let idx = (y + k / sw) * width + x + k % sw;
        pixels.set(idx, image[k]);
        proof {
            assert(width > 0);
            assert((idx as int) % (width as int) == col && (idx as int) / (width as int) == row) by (nonlinear_arith)
                requires
                    idx as int == row * width + col,
                    0 <= col < width,
                    row >= 0,
            ;
            assert((row - y) * sw + (col - x) == k) by (nonlinear_arith)
                requires
                    row == y + k / sw,
                    col == x + k % sw,
                    sw > 0,
                    k >= 0,
            ;
            let img = image@.subrange(0, k + 1);
            assert forall|i: int| 0 <= i < n implies #[trigger] pixels@[i] == pasted(old_p, img, width as int, x as int, y as int, sw as int, i) by {
                if i != idx {
                    let c = i % (width as int);
                    let r = i / (width as int);
                    let kk = (r - y) * sw + (c - x);
                    if x <= c < x + sw && y <= r && kk == k {
                        assert(c - x == k % sw && r - y == k / sw) by (nonlinear_arith)
                            requires
                                kk == (r - y) * sw + (c - x),
                                kk == k,
                                0 <= c - x < sw,
                                r - y >= 0,
                                sw > 0,
                        ;
                        assert(i == r * width + c) by (nonlinear_arith)
                            requires
                                c == i % (width as int),
                                r == i / (width as int),
                                width > 0,
                        ;
                    }
                }
            }
        }
        k += 1;
        assert(pixels@ =~= Seq::new(
            n as nat,
            |i: int| pasted(old_p, image@.subrange(0, k as int), width as int, x as int, y as int, sw as int, i),
        ));
    }
    assert(image@.subrange(0, k as int) =~= image@);
}

/// A 16-pixel-wide picture with each row reversed.
pub open spec fn mirror_h_spec<T>(pixels: Seq<T>) -> Seq<T> {
    Seq::new(pixels.len(), |k: int| pixels[(k / 16) * 16 + 15 - k % 16])
}

/// A 16 by 16 picture with its rows in reverse order.
pub open spec fn mirror_v_spec<T>(pixels: Seq<T>) -> Seq<T> {
    Seq::new(pixels.len(), |k: int| pixels[(15 - k / 16) * 16 + k % 16])
}

/// Mirrors a 16-pixel-wide picture left to right.
pub fn mirror_horizontally<T: Copy>(pixels: &Vec<T>) -> (r: Vec<T>)
    requires
        pixels@.len() % 16 == 0,
    ensures
        r@ == mirror_h_spec(pixels@),
{
    let mut r: Vec<T> = Vec::new();
    let mut k: usize = 0;
    while k < pixels.len()
        invariant
            pixels@.len() % 16 == 0,
            k <= pixels@.len(),
            r@ == mirror_h_spec(pixels@).subrange(0, k as int),
        decreases pixels@.len() - k,
    {
        proof {
            assert((k / 16) * 16 + 15 - k % 16 < pixels@.len()) by (nonlinear_arith)
                requires
                    k < pixels@.len(),
                    pixels@.len() % 16 == 0,
            ;
        }
        r.push(pixels[(k / 16) * 16 + 15 - k % 16]);
        k += 1;
        assert(r@ =~= mirror_h_spec(pixels@).subrange(0, k as int));
    }
    assert(r@ =~= mirror_h_spec(pixels@));
    r
}

/// Mirrors a 16 by 16 picture top to bottom.
pub fn mirror_vertically<T: Copy>(pixels: &Vec<T>) -> (r: Vec<T>)
    requires
        pixels@.len() == 256,
    ensures
        r@ == mirror_v_spec(pixels@),
{
    let mut r: Vec<T> = Vec::new();
    let mut k: usize = 0;
    while k < 256
        invariant
            pixels@.len() == 256,
            k <= 256,
            r@ == mirror_v_spec(pixels@).subrange(0, k as int),
        decreases 256 - k,
    {
        r.push(pixels[(15 - k / 16) * 16 + k % 16]);
        k += 1;
        assert(r@ =~= mirror_v_spec(pixels@).subrange(0, k as int));
    }
    assert(r@ =~= mirror_v_spec(pixels@));
    r
}

/// A block type and BTS byte pair, which selects a BTS icon.
#[derive(Debug, Clone, Copy, PartialEq, Eq, Structural, Hash, Default)]
pub struct BtsTile {
    pub block_type: BlockType,
    pub bts_block: u8,
}

/// The value of a hexadecimal digit.
pub open spec fn hex_value(c: u8) -> Option<int> {
    if 0x30 <= c <= 0x39 {
        Some(c - 0x30)
    } else if 0x61 <= c <= 0x66 {
        Some(c - 0x61 + 10)
    } else if 0x41 <= c <= 0x46 {
        Some(c - 0x41 + 10)
    } else {
        None
    }
}

/// The byte that the hexadecimal digits `s` spell, if they are one or two.
pub open spec fn hex_byte(s: Seq<u8>) -> Option<u8> {
    if s.len() == 1 && hex_value(s[0]) is Some {
        Some(hex_value(s[0]).unwrap() as u8)
    } else if s.len() == 2 && hex_value(s[0]) is Some && hex_value(s[1]) is Some {
        Some((16 * hex_value(s[0]).unwrap() + hex_value(s[1]).unwrap()) as u8)
    } else {
        None
    }
}

fn hex_digit(c: u8) -> (r: Option<u8>)
    ensures
        r.is_some() == (hex_value(c) is Some),
        r.is_some() ==> r.unwrap() as int == hex_value(c).unwrap() && r.unwrap() < 16,
{
    if c >= 0x30 && c <= 0x39 {
        Some(c - 0x30)
    } else if c >= 0x61 && c <= 0x66 {
        Some(c - 0x61 + 10)
    } else if c >= 0x41 && c <= 0x46 {
        Some(c - 0x41 + 10)
    } else {
        None
    }
}

fn parse_hex_byte(s: &[u8]) -> (r: Option<u8>)
    ensures
        r == hex_byte(s@),
{
    if s.len() == 1 {
        match hex_digit(s[0]) {
            Some(v) => Some(v),
            None => None,
        }
    } else if s.len() == 2 {
        match (hex_digit(s[0]), hex_digit(s[1])) {
            (Some(a), Some(b)) => Some(16 * a + b),
            _ => None,
        }
    } else {
        None
    }
}

/// The icon key that a file stem `TT_BB` names: block type `TT` and BTS byte
/// `BB`, in hexadecimal. `None` for any other stem.
pub open spec fn bts_icon_name_spec(name: Seq<u8>) -> Option<BtsTile> {
    if exists|i: int| 0 <= i < name.len() && name[i] == 0x5F {
        let i = choose|i: int| 0 <= i < name.len() && name[i] == 0x5F && forall|j: int| 0 <= j < i ==> name[j] != 0x5F;
        match (hex_byte(name.subrange(0, i)), hex_byte(name.subrange(i + 1, name.len() as int))) {
            (Some(t), Some(b)) => Some(BtsTile { block_type: block_type_of(t as int % 16), bts_block: b }),
            _ => None,
        }
    } else {
        None
    }
}

/// Reads an icon key from a file stem `TT_BB`: block type and BTS byte in
/// hexadecimal.
pub fn parse_bts_icon_name(name: &[u8]) -> (r: Option<BtsTile>)
    ensures
        r == bts_icon_name_spec(name@),
{
    let mut i: usize = 0;
    while i < name.len() && name[i] != 0x5F
        invariant
            i <= name@.len(),
            forall|j: int| 0 <= j < i ==> name@[j] != 0x5F,
        decreases name@.len() - i,
    {
        i += 1;
    }
    if i == name.len() {
        return None;
    }
    proof {
        let c = choose|c: int| 0 <= c < name@.len() && name@[c] == 0x5F && forall|j: int| 0 <= j < c ==> name@[j] != 0x5F;
        assert(c == i as int) by {
            if c < i {
            } else if c > i {
                assert(name@[i as int] == 0x5F);
            }
        }
    }
    let first = crate::level::copy_range(name, 0, i);
    let second = crate::level::copy_range(name, i + 1, name.len());
    match (parse_hex_byte(first.as_slice()), parse_hex_byte(second.as_slice())) {
        (Some(t), Some(b)) => Some(BtsTile { block_type: BlockType::from_code(t), bts_block: b }),
        _ => None,
    }
}

/// The keys of the mirrored icons of a slope: its BTS byte with bit 6 (left
/// to right), bit 7 (top to bottom) and both set. Other block types have none.
pub fn slope_variants(tile: BtsTile) -> (r: Vec<BtsTile>)
    ensures
        tile.block_type == BlockType::Slope ==> r@ == seq![
            BtsTile { bts_block: tile.bts_block | 0x40, ..tile },
            BtsTile { bts_block: tile.bts_block | 0x80, ..tile },
            BtsTile { bts_block: tile.bts_block | 0xC0, ..tile },
        ],
        tile.block_type != BlockType::Slope ==> r@.len() == 0,
{
    let mut r: Vec<BtsTile> = Vec::new();
    if tile.block_type == BlockType::Slope {
        r.push(BtsTile { bts_block: tile.bts_block | 0x40, ..tile });
        r.push(BtsTile { bts_block: tile.bts_block | 0x80, ..tile });
        r.push(BtsTile { bts_block: tile.bts_block | 0xC0, ..tile });
        assert(r@ =~= seq![
            BtsTile { bts_block: tile.bts_block | 0x40, ..tile },
            BtsTile { bts_block: tile.bts_block | 0x80, ..tile },
            BtsTile { bts_block: tile.bts_block | 0xC0, ..tile },
        ]);
    }
    r
}


/// A rectangle of blocks: columns `min_x .. max_x`, rows `min_y .. max_y`.
#[derive(Debug, Clone, Copy, PartialEq, Eq, Structural, Default)]
pub struct BlockRect {
    pub min_x: usize,
    pub min_y: usize,
    pub max_x: usize,
    pub max_y: usize,
}

impl BlockRect {
    /// Columns before rows: no side is inverted.
    pub open spec fn valid(self) -> bool {
        self.min_x <= self.max_x && self.min_y <= self.max_y
    }
}

/// The smallest rectangle of blocks that holds the two clicked blocks.
pub fn selection_between(first: (usize, usize), second: (usize, usize)) -> (r: BlockRect)
    requires
        first.0 < usize::MAX,
        first.1 < usize::MAX,
        second.0 < usize::MAX,
        second.1 < usize::MAX,
    ensures
        r.valid(),
        r.min_x == if first.0 < second.0 { first.0 } else { second.0 },
        r.min_y == if first.1 < second.1 { first.1 } else { second.1 },
        r.max_x == 1 + if first.0 > second.0 { first.0 } else { second.0 },
        r.max_y == 1 + if first.1 > second.1 { first.1 } else { second.1 },
{
    BlockRect {
        min_x: if first.0 < second.0 { first.0 } else { second.0 },
        min_y: if first.1 < second.1 { first.1 } else { second.1 },
        max_x: 1 + if first.0 > second.0 { first.0 } else { second.0 },
        max_y: 1 + if first.1 > second.1 { first.1 } else { second.1 },
    }
}

/// Position `k` of a selection taken column by column from a rectangle
/// `h` rows high at `(x, y)` of a level `width` blocks wide.
pub open spec fn selection_slot(width: int, x: int, y: int, h: int, k: int) -> int {
    (y + k % h) * width + x + k / h
}

/// The blocks of the tileset sheet (`width` blocks wide) in `rect`, column by
/// column, each as a plain block naming that tile-table block, with BTS 0.
pub fn tile_table_selection(width: usize, rect: BlockRect) -> (r: Vec<(Block, u8)>)
    requires
        rect.valid(),
        rect.max_x <= width,
        rect.max_y * width <= 1024,
    ensures
        r@.len() == (rect.max_x - rect.min_x) * (rect.max_y - rect.min_y),
        forall|k: int|
            0 <= k < r@.len() ==> #[trigger] r@[k] == (
                Block {
                    block_number: selection_slot(
                        width as int,
                        rect.min_x as int,
                        rect.min_y as int,
                        rect.max_y - rect.min_y,
                        k,
                    ) as u16,
                    h_flip: false,
                    v_flip: false,
                    block_type: BlockType::Air,
                },
                0u8,
            ),
{
    let w = rect.max_x - rect.min_x;
    let h = rect.max_y - rect.min_y;
    let mut r: Vec<(Block, u8)> = Vec::new();
    let mut cx: usize = 0;
    while cx < w
        invariant
            rect.valid(),
            rect.max_x <= width,
            rect.max_y * width <= 1024,
            w == rect.max_x - rect.min_x,
            h == rect.max_y - rect.min_y,
            cx <= w,
            r@.len() == cx * h,
            forall|k: int|
                0 <= k < r@.len() ==> #[trigger] r@[k] == (
                    Block {
                        block_number: selection_slot(width as int, rect.min_x as int, rect.min_y as int, h as int, k) as u16,
                        h_flip: false,
                        v_flip: false,
                        block_type: BlockType::Air,
                    },
                    0u8,
                ),
        decreases w - cx,
    {
        let mut cy: usize = 0;
        while cy < h
            invariant
                rect.valid(),
                rect.max_x <= width,
                rect.max_y * width <= 1024,
                w == rect.max_x - rect.min_x,
                h == rect.max_y - rect.min_y,
                cx < w,
                cy <= h,
                r@.len() == cx * h + cy,
                forall|k: int|
                    0 <= k < r@.len() ==> #[trigger] r@[k] == (
                        Block {
                            block_number: selection_slot(width as int, rect.min_x as int, rect.min_y as int, h as int, k) as u16,
                            h_flip: false,
                            v_flip: false,
                            block_type: BlockType::Air,
                        },
                        0u8,
                    ),
            decreases h - cy,
        {
            let ghost k = cx * h + cy;
            proof {
                assert(k % (h as int) == cy && k / (h as int) == cx) by (nonlinear_arith)
                    requires
                        k == cx * h + cy,
                        0 <= cy < h,
                ;
                assert((rect.min_y + cy) * width + rect.min_x + cx < rect.max_y * width) by (nonlinear_arith)
                    requires
                        rect.min_y + cy < rect.max_y,
                        rect.min_x + cx < width,
                ;
            }
            let n = (rect.min_y + cy) * width + rect.min_x + cx;
            r.push((Block { block_number: n as u16, h_flip: false, v_flip: false, block_type: BlockType::Air }, 0));
            cy += 1;
        }
        cx += 1;
        assert(cx * h == (cx - 1) * h + h) by (nonlinear_arith);
    }
    assert(r@.len() == w * h);
    r
}

/// What `apply_selection` leaves at position `i` of a layer: the selected
/// item `k` whose slot is `i`, when `data` has it, else what was there.
pub open spec fn applied<T>(
    old: Seq<T>,
    new_items: Seq<T>,
    width: int,
    x: int,
    y: int,
    w: int,
    h: int,
    done: int,
    i: int,
) -> T {
    let col = i % width;
    let row = i / width;
    let k = (col - x) * h + (row - y);
    if x <= col < x + w && y <= row < y + h && k < done && k < new_items.len() {
        new_items[k]
    } else {
        old[i]
    }
}

impl LevelData {
    /// The blocks and BTS bytes in `rect` of a level `width` blocks wide,
    /// column by column.
    pub fn extract_selection(&self, width: usize, rect: BlockRect) -> (r: Vec<(Block, u8)>)
        requires
            self.wf(),
            rect.valid(),
            rect.max_x <= width,
            rect.max_y * width <= self.layer1@.len(),
        ensures
            r@.len() == (rect.max_x - rect.min_x) * (rect.max_y - rect.min_y),
            forall|k: int|
                0 <= k < r@.len() ==> {
                    let i = selection_slot(
                        width as int,
                        rect.min_x as int,
                        rect.min_y as int,
                        rect.max_y - rect.min_y,
                        k,
                    );
                    #[trigger] r@[k] == (self.layer1@[i], self.bts@[i])
                },
    {
        let w = rect.max_x - rect.min_x;
        let h = rect.max_y - rect.min_y;
        let mut r: Vec<(Block, u8)> = Vec::new();
        let mut cx: usize = 0;
        while cx < w
            invariant
                self.wf(),
                rect.valid(),
                rect.max_x <= width,
                rect.max_y * width <= self.layer1.len(),
                w == rect.max_x - rect.min_x,
                h == rect.max_y - rect.min_y,
                cx <= w,
                r@.len() == cx * h,
                forall|k: int|
                    0 <= k < r@.len() ==> {
                        let i = selection_slot(width as int, rect.min_x as int, rect.min_y as int, h as int, k);
                        #[trigger] r@[k] == (self.layer1@[i], self.bts@[i])
                    },
            decreases w - cx,
        {
            let mut cy: usize = 0;
            while cy < h
                invariant
                    self.wf(),
                    rect.valid(),
                    rect.max_x <= width,
                    rect.max_y * width <= self.layer1.len(),
                    w == rect.max_x - rect.min_x,
                    h == rect.max_y - rect.min_y,
                    cx < w,
                    cy <= h,
                    r@.len() == cx * h + cy,
                    forall|k: int|
                        0 <= k < r@.len() ==> {
                            let i = selection_slot(width as int, rect.min_x as int, rect.min_y as int, h as int, k);
                            #[trigger] r@[k] == (self.layer1@[i], self.bts@[i])
                        },
                decreases h - cy,
            {
                let ghost k = cx * h + cy;
                proof {
                    assert(k % (h as int) == cy && k / (h as int) == cx) by (nonlinear_arith)
                        requires
                            k == cx * h + cy,
                            0 <= cy < h,
                    ;
                    assert((rect.min_y + cy) * width + rect.min_x + cx < rect.max_y * width) by (nonlinear_arith)
                        requires
                            rect.min_y + cy < rect.max_y,
                            rect.min_x + cx < width,
                    ;
                }
                let n = (rect.min_y + cy) * width + rect.min_x + cx;
                r.push((self.layer1[n], self.bts[n]));
                cy += 1;
            }
            cx += 1;
            assert(cx * h == (cx - 1) * h + h) by (nonlinear_arith);
        }
        assert(r@.len() == w * h);
        r
    }
}


proof fn lemma_slot_step<T>(
    old: Seq<T>,
    items: Seq<T>,
    width: int,
    x: int,
    y: int,
    w: int,
    h: int,
    cx: int,
    cy: int,
)
    requires
        0 <= cx < w,
        0 <= cy < h,
        0 <= x,
        0 <= y,
        x + w <= width,
        (y + h) * width <= old.len(),
    ensures
        ({
            let idx = (y + cy) * width + x + cx;
            let done = cx * h + cy;
            &&& 0 <= idx < old.len()
            &&& forall|i: int|
                0 <= i < old.len() && i != idx ==> applied(old, items, width, x, y, w, h, done + 1, i)
                    == applied(old, items, width, x, y, w, h, done, i)
            &&& done < items.len() ==> applied(old, items, width, x, y, w, h, done + 1, idx)
                == items[done]
            &&& done >= items.len() ==> applied(old, items, width, x, y, w, h, done + 1, idx)
                == applied(old, items, width, x, y, w, h, done, idx)
        }),
{
    let idx = (y + cy) * width + x + cx;
    let done = cx * h + cy;
    assert(0 <= idx < old.len()) by (nonlinear_arith)
        requires
            idx == (y + cy) * width + x + cx,
            0 <= cx < w,
            0 <= cy < h,
            0 <= x,
            0 <= y,
            x + w <= width,
            (y + h) * width <= old.len(),
    ;
    assert(idx % width == x + cx && idx / width == y + cy) by (nonlinear_arith)
        requires
            idx == (y + cy) * width + x + cx,
            0 <= x + cx < width,
            0 <= y + cy,
    ;
    assert forall|i: int|
        0 <= i < old.len() && i != idx implies applied(old, items, width, x, y, w, h, done + 1, i)
            == applied(old, items, width, x, y, w, h, done, i) by {
        let col = i % width;
        let row = i / width;
        let k = (col - x) * h + (row - y);
        if x <= col < x + w && y <= row < y + h && k == done {
            assert(col - x == cx && row - y == cy) by (nonlinear_arith)
                requires
                    k == (col - x) * h + (row - y),
                    k == cx * h + cy,
                    0 <= row - y < h,
                    0 <= cy < h,
                    0 <= col - x,
                    0 <= cx,
            ;
            assert(i == row * width + col) by (nonlinear_arith)
                requires
                    col == i % width,
                    row == i / width,
                    width > 0,
            ;
        }
    }
}

impl LevelData {
    /// Pastes `data`, a selection taken column by column from a rectangle `w`
    /// blocks wide and `h` high, at `(x, y)` of the level, `width` blocks
    /// wide. Items past the end of `data` leave their places as they were.
    pub fn apply_selection(
        &mut self,
        width: usize,
        x: usize,
        y: usize,
        w: usize,
        h: usize,
        data: &Vec<(Block, u8)>,
    )
        requires
            old(self).wf(),
            x + w <= width,
            (y + h) * width <= old(self).layer1@.len(),
            forall|k: int| 0 <= k < data@.len() ==> (#[trigger] data@[k]).0.valid(),
        ensures
            final(self).wf(),
            final(self).layer2@ == old(self).layer2@,
            final(self).layer1@ == Seq::new(
                old(self).layer1@.len(),
                |i: int|
                    applied(
                        old(self).layer1@,
                        data@.map_values(|e: (Block, u8)| e.0),
                        width as int,
                        x as int,
                        y as int,
                        w as int,
                        h as int,
                        w * h,
                        i,
                    ),
            ),
            final(self).bts@ == Seq::new(
                old(self).bts@.len(),
                |i: int|
                    applied(
                        old(self).bts@,
                        data@.map_values(|e: (Block, u8)| e.1),
                        width as int,
                        x as int,
                        y as int,
                        w as int,
                        h as int,
                        w * h,
                        i,
                    ),
            ),
    {
        let ghost old1 = self.layer1@;
        let ghost old2 = self.bts@;
        let ghost items1 = data@.map_values(|e: (Block, u8)| e.0);
        let ghost items2 = data@.map_values(|e: (Block, u8)| e.1);
        let n = self.layer1.len();
        let mut cx: usize = 0;
        proof {
            assert(self.layer1@ =~= Seq::new(n as nat, |i: int| applied(old1, items1, width as int, x as int, y as int, w as int, h as int, 0, i)));
            assert(self.bts@ =~= Seq::new(n as nat, |i: int| applied(old2, items2, width as int, x as int, y as int, w as int, h as int, 0, i)));
        }
        while cx < w
            invariant
                n == old1.len(),
                old1.len() == old2.len(),
                x + w <= width,
                (y + h) * width <= n,
                cx <= w,
                items1 == data@.map_values(|e: (Block, u8)| e.0),
                items2 == data@.map_values(|e: (Block, u8)| e.1),
                forall|k: int| 0 <= k < data@.len() ==> (#[trigger] data@[k]).0.valid(),
                forall|i: int| 0 <= i < old1.len() ==> (#[trigger] old1[i]).valid(),
                self.layer2@ == old(self).layer2@,
                self.layer1@ == Seq::new(n as nat, |i: int| applied(old1, items1, width as int, x as int, y as int, w as int, h as int, cx * h, i)),
                self.bts@ == Seq::new(n as nat, |i: int| applied(old2, items2, width as int, x as int, y as int, w as int, h as int, cx * h, i)),
            decreases w - cx,
        {
            let mut cy: usize = 0;
            while cy < h
                invariant
                    n == old1.len(),
                    old1.len() == old2.len(),
                    x + w <= width,
                    (y + h) * width <= n,
                    cx < w,
                    cy <= h,
                    items1 == data@.map_values(|e: (Block, u8)| e.0),
                    items2 == data@.map_values(|e: (Block, u8)| e.1),
                    forall|k: int| 0 <= k < data@.len() ==> (#[trigger] data@[k]).0.valid(),
                    forall|i: int| 0 <= i < old1.len() ==> (#[trigger] old1[i]).valid(),
                    self.layer2@ == old(self).layer2@,
                    self.layer1@ == Seq::new(n as nat, |i: int| applied(old1, items1, width as int, x as int, y as int, w as int, h as int, cx * h + cy, i)),
                    self.bts@ == Seq::new(n as nat, |i: int| applied(old2, items2, width as int, x as int, y as int, w as int, h as int, cx * h + cy, i)),
                decreases h - cy,
            {
                proof {
                    lemma_slot_step(old1, items1, width as int, x as int, y as int, w as int, h as int, cx as int, cy as int);
                    lemma_slot_step(old2, items2, width as int, x as int, y as int, w as int, h as int, cx as int, cy as int);
                    assert(cx * h + cy < w * h) by (nonlinear_arith)
                        requires
                            cx < w,
                            cy < h,
                    ;
                    assert(width >= 1);
                    assert(y + h <= (y + h) * width) by (nonlinear_arith)
                        requires
                            width >= 1,
                            y + h >= 0,
                    ;
                    assert((y + cy) * width <= (y + h) * width) by (nonlinear_arith)
                        requires
                            cy < h,
                            0 <= width,
                    ;
                    assert(w * h <= (y + h) * width) by (nonlinear_arith)
                        requires
                            x + w <= width,
                            0 <= x,
                            0 <= y,
                            0 <= h,
                    ;
                }
                let k = cx * h + cy;
                let idx = (y + cy) * width + x + cx;
                let ghost done = k as int;
                if k < data.len() {
                    let (b, t) = data[k];
                    self.layer1.set(idx, b);
                    self.bts.set(idx, t);
                }
                proof {
                    assert(self.layer1@ =~= Seq::new(n as nat, |i: int| applied(old1, items1, width as int, x as int, y as int, w as int, h as int, done + 1, i)));
                    assert(self.bts@ =~= Seq::new(n as nat, |i: int| applied(old2, items2, width as int, x as int, y as int, w as int, h as int, done + 1, i)));
                }
                cy += 1;
            }
            cx += 1;
            assert(cx * h == (cx - 1) * h + h) by (nonlinear_arith);
        }
        proof {
            assert forall|i: int| 0 <= i < self.layer1@.len() implies (#[trigger] self.layer1@[i]).valid() by {
                let col = i % (width as int);
                let row = i / (width as int);
                let k = (col - x) * h + (row - y);
                if x <= col < x + w && y <= row < y + h && k < w * h && k < items1.len() {
                    assert(data@[k].0.valid());
                } else {
                    assert(old1[i].valid());
                }
            }
        }
    }
}

} // verus!

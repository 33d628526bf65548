//! 15-bit SNES colors and palettes of eight sixteen-color sub-palettes.
use vstd::prelude::*;
use crate::address::{u16_at, u16_bytes};

verus! {

/// Colors in one sub-palette.
pub const COLORS_BY_SUB_PALETTE: usize = 16;

/// Sub-palettes in one palette.
pub const NUMBER_OF_SUB_PALETTES: usize = 8;

/// Colors in one palette.
pub const PALETTE_COLORS: usize = 128;

/// Bytes of one palette on the wire: two per color.
pub const PALETTE_BYTES: usize = 256;

/// A color as stored in the ROM: three 5-bit channels.
#[derive(Debug, Clone, Copy, PartialEq, Eq, Structural, Default)]
pub struct Bgr555 {
    pub r: u8,
    pub g: u8,
    pub b: u8,
}

/// A color with 8-bit channels.
#[derive(Debug, Clone, Copy, PartialEq, Eq, Structural, Default)]
pub struct Rgb888 {
    pub r: u8,
    pub g: u8,
    pub b: u8,
}

impl Bgr555 {
    /// Every channel fits in 5 bits.
    pub open spec fn valid(self) -> bool {
        self.r < 32 && self.g < 32 && self.b < 32
    }
}

/// The color that the 16-bit word `w` holds; its top bit is not a channel.
pub open spec fn color_of_word(w: int) -> Bgr555 {
    Bgr555 { r: (w % 32) as u8, g: (w / 32 % 32) as u8, b: (w / 1024 % 32) as u8 }
}

/// The 16-bit word that stores `c`.
pub open spec fn word_of_color(c: Bgr555) -> int {
    c.r + 32 * c.g + 1024 * c.b
}

/// A 5-bit channel widened to 8 bits by repeating its top bits.
pub open spec fn widen(c: u8) -> u8 {
    (c * 8 + c / 4) as u8
}

/// The 8-bit color that a stored color shows as.
pub open spec fn rgb_of(c: Bgr555) -> Rgb888 {
    Rgb888 { r: widen(c.r), g: widen(c.g), b: widen(c.b) }
}

/// The stored color for an 8-bit color: the top five bits of each channel.
pub open spec fn bgr_of(c: Rgb888) -> Bgr555 {
    Bgr555 { r: c.r / 8, g: c.g / 8, b: c.b / 8 }
}

/// Widens a stored color to 8-bit channels.
pub fn to_rgb888(c: Bgr555) -> (r: Rgb888)
    requires
        c.valid(),
    ensures
        r == rgb_of(c),
{
    Rgb888 { r: c.r * 8 + c.r / 4, g: c.g * 8 + c.g / 4, b: c.b * 8 + c.b / 4 }
}

/// Narrows an 8-bit color to the stored precision.
pub fn from_rgb888(c: Rgb888) -> (r: Bgr555)
    ensures
        r == bgr_of(c),
        r.valid(),
{
    Bgr555 { r: c.r / 8, g: c.g / 8, b: c.b / 8 }
}

/// Widening a stored color and narrowing it again gives it back.
pub proof fn lemma_color_round_trip(c: Bgr555)
    requires
        c.valid(),
    ensures
        bgr_of(rgb_of(c)) == c,
{
}

/// A palette: sub-palette `s` holds `colors[16 * s .. 16 * s + 16]`.
#[derive(Debug, Clone)]
pub struct Palette {
    pub colors: Vec<Bgr555>,
}

impl Palette {
    /// Exactly 128 colors, each with 5-bit channels.
    pub open spec fn wf(&self) -> bool {
        palette_colors_wf(self.colors@)
    }

    /// Colors `16 * sub .. 16 * sub + 16`, widened, for display.
    pub fn sub_palette_rgb(&self, sub: usize) -> (r: Vec<Rgb888>)
        requires
            self.wf(),
            sub < NUMBER_OF_SUB_PALETTES,
        ensures
            r@ == Seq::new(
                COLORS_BY_SUB_PALETTE as nat,
                |k: int| rgb_of(self.colors@[sub * 16 + k]),
            ),
    {
        let mut r: Vec<Rgb888> = Vec::new();
        let mut k: usize = 0;
        while k < COLORS_BY_SUB_PALETTE
            invariant
                self.wf(),
                sub < NUMBER_OF_SUB_PALETTES,
                k <= COLORS_BY_SUB_PALETTE,
                r@ == Seq::new(k as nat, |j: int| rgb_of(self.colors@[sub * 16 + j])),
            decreases COLORS_BY_SUB_PALETTE - k,
        {
            r.push(to_rgb888(self.colors[sub * 16 + k]));
            k += 1;
            assert(r@ =~= Seq::new(k as nat, |j: int| rgb_of(self.colors@[sub * 16 + j])));
        }
        r
    }

    /// All colors, widened, in order.
    pub fn to_colors(&self) -> (r: Vec<Rgb888>)
        requires
            self.wf(),
        ensures
            r@ == self.colors@.map_values(|c: Bgr555| rgb_of(c)),
    {
        let mut r: Vec<Rgb888> = Vec::new();
        let mut k: usize = 0;
        while k < self.colors.len()
            invariant
                self.wf(),
                k <= self.colors@.len(),
                r@ == self.colors@.subrange(0, k as int).map_values(|c: Bgr555| rgb_of(c)),
            decreases self.colors@.len() - k,
        {
            r.push(to_rgb888(self.colors[k]));
            k += 1;
            assert(r@ =~= self.colors@.subrange(0, k as int).map_values(|c: Bgr555| rgb_of(c)));
        }
        assert(self.colors@.subrange(0, k as int) =~= self.colors@);
        r
    }

    /// The stored color at `index` of sub-palette `sub`.
    pub fn color(&self, sub: usize, index: usize) -> (r: Bgr555)
        requires
            self.wf(),
            sub < NUMBER_OF_SUB_PALETTES,
            index < COLORS_BY_SUB_PALETTE,
        ensures
            r == self.colors@[sub * 16 + index],
    {
        self.colors[sub * 16 + index]
    }

    /// Replaces the color at `index` of sub-palette `sub` by `color`, narrowed
    /// to the stored precision.
    pub fn set_color(&mut self, sub: usize, index: usize, color: Rgb888)
        requires
            old(self).wf(),
            sub < NUMBER_OF_SUB_PALETTES,
            index < COLORS_BY_SUB_PALETTE,
        ensures
            final(self).wf(),
            final(self).colors@ == old(self).colors@.update(sub * 16 + index, bgr_of(color)),
    {
        let c = from_rgb888(color);
        self.colors.set(sub * 16 + index, c);
    }
}

/// 128 colors with 5-bit channels.
pub open spec fn palette_colors_wf(colors: Seq<Bgr555>) -> bool {
    colors.len() == PALETTE_COLORS && forall|i: int| 0 <= i < colors.len() ==> #[trigger] colors[i].valid()
}

/// The colors that a 256-byte palette buffer holds.
pub open spec fn parse_palette_spec(b: Seq<u8>) -> Seq<Bgr555> {
    Seq::new(PALETTE_COLORS as nat, |i: int| color_of_word(u16_at(b, 2 * i)))
}

/// The bytes that store `colors`.
pub open spec fn palette_bytes(colors: Seq<Bgr555>) -> Seq<u8> {
    Seq::new(
        (2 * colors.len()) as nat,
        |k: int| u16_bytes(word_of_color(colors[k / 2]))[k % 2],
    )
}

/// A palette buffer whose every color word has its unused top bit clear.
pub open spec fn valid_palette_bytes(b: Seq<u8>) -> bool {
    b.len() == PALETTE_BYTES && forall|i: int| 0 <= i < PALETTE_COLORS ==> #[trigger] b[2 * i + 1] < 128
}

/// A palette buffer is not 256 bytes long.
#[derive(Debug, Clone, Copy, PartialEq, Eq, Structural)]
pub enum PaletteError {
    WrongLength,
}

/// Decodes a 256-byte palette buffer.
pub fn parse_palette(b: &[u8]) -> (r: Result<Palette, PaletteError>)
    ensures
        r.is_ok() <==> b@.len() == PALETTE_BYTES,
        r.is_ok() ==> r.unwrap().wf() && r.unwrap().colors@ == parse_palette_spec(b@),
{
    if b.len() != PALETTE_BYTES {
        return Err(PaletteError::WrongLength);
    }
    let mut colors: Vec<Bgr555> = Vec::new();
    let mut i: usize = 0;
    while i < PALETTE_COLORS
        invariant
            b@.len() == PALETTE_BYTES,
            i <= PALETTE_COLORS,
            colors@ == parse_palette_spec(b@).subrange(0, i as int),
            forall|k: int| 0 <= k < i ==> #[trigger] colors@[k].valid(),
        decreases PALETTE_COLORS - i,
    {
        let w = b[2 * i] as u16 + 256 * (b[2 * i + 1] as u16);
        let c = Bgr555 { r: (w % 32) as u8, g: (w / 32 % 32) as u8, b: (w / 1024 % 32) as u8 };
        colors.push(c);
        i += 1;
        assert(colors@ =~= parse_palette_spec(b@).subrange(0, i as int));
    }
    assert(colors@ =~= parse_palette_spec(b@));
    Ok(Palette { colors })
}

/// Encodes a palette as its 256-byte buffer.
pub fn serialize_palette(p: &Palette) -> (r: Vec<u8>)
    requires
        p.wf(),
    ensures
        r@ == palette_bytes(p.colors@),
        valid_palette_bytes(r@),
{
    let mut r: Vec<u8> = Vec::new();
    let mut i: usize = 0;
    while i < PALETTE_COLORS
        invariant
            p.wf(),
            i <= PALETTE_COLORS,
            r@ == palette_bytes(p.colors@).subrange(0, 2 * i),
            forall|k: int| 0 <= k < i ==> #[trigger] r@[2 * k + 1] < 128,
        decreases PALETTE_COLORS - i,
    {
        let c = p.colors[i];
        assert(p.colors@[i as int].valid());
        let w: u16 = c.r as u16 + 32 * c.g as u16 + 1024 * c.b as u16;
        r.push((w % 256) as u8);
        r.push((w / 256) as u8);
        i += 1;
        assert(r@ =~= palette_bytes(p.colors@).subrange(0, 2 * i));
    }
    assert(r@ =~= palette_bytes(p.colors@));
    r
}

proof fn lemma_word_round_trip(b0: u8, b1: u8)
    requires
        b1 < 128,
    ensures
        word_of_color(color_of_word(b0 + 256 * b1)) == b0 + 256 * b1,
        u16_bytes(b0 + 256 * b1) == seq![b0, b1],
{
    let w = b0 + 256 * b1;
    assert(w == w % 32 + 32 * (w / 32 % 32) + 1024 * (w / 1024 % 32)) by (nonlinear_arith)
        requires
            0 <= w < 32768,
    ;
    assert(u16_bytes(w) =~= seq![b0, b1]);
}

/// Decoding a valid palette buffer and encoding the result gives the buffer
/// back, byte for byte.
#[verifier::spinoff_prover]
pub proof fn lemma_palette_round_trip(b: Seq<u8>)
    requires
        valid_palette_bytes(b),
    ensures
        palette_colors_wf(parse_palette_spec(b)),
        palette_bytes(parse_palette_spec(b)) == b,
{
    let cs = parse_palette_spec(b);
    assert forall|k: int| 0 <= k < b.len() implies #[trigger] palette_bytes(cs)[k] == b[k] by {
        let i = k / 2;
        assert(b[2 * i + 1] < 128);
        lemma_word_round_trip(b[2 * i], b[2 * i + 1]);
        assert(cs[i] == color_of_word(u16_at(b, 2 * i)));
        assert(k == 2 * i || k == 2 * i + 1);
    }
    assert(palette_bytes(cs) =~= b);
}

proof fn lemma_color_word(c: Bgr555)
    requires
        c.valid(),
    ensures
        color_of_word(word_of_color(c)) == c,
        u16_bytes(word_of_color(c))[0] + 256 * u16_bytes(word_of_color(c))[1] == word_of_color(c),
{
    let w = word_of_color(c);
    let (r, g, b) = (c.r as int, c.g as int, c.b as int);
    assert(w % 32 == r && w / 32 % 32 == g && w / 1024 % 32 == b) by (nonlinear_arith)
        requires
            w == r + 32 * g + 1024 * b,
            0 <= r < 32,
            0 <= g < 32,
            0 <= b < 32,
    ;
    assert(w % 256 + 256 * (w / 256 % 256) == w) by (nonlinear_arith)
        requires
            0 <= w < 32768,
    ;
}

/// Encoding a palette and decoding the buffer gives the palette back.
#[verifier::spinoff_prover]
pub proof fn lemma_palette_bytes_decode(colors: Seq<Bgr555>)
    requires
        palette_colors_wf(colors),
    ensures
        parse_palette_spec(palette_bytes(colors)) == colors,
{
    let b = palette_bytes(colors);
    assert forall|i: int| 0 <= i < PALETTE_COLORS implies #[trigger] parse_palette_spec(b)[i]
        == colors[i] by {
        assert(colors[i].valid());
        lemma_color_word(colors[i]);
        assert(b[2 * i] == u16_bytes(word_of_color(colors[i]))[0]);
        assert(b[2 * i + 1] == u16_bytes(word_of_color(colors[i]))[1]);
    }
    assert(parse_palette_spec(b) =~= colors);
}

} // verus!

use zen_sm::address::{pc_to_snes, read_u16, read_u24, read_u8, snes_to_pc, write_bytes, OutOfBounds};
use zen_sm::compression::{compress, decompress, decompress_at, DecompressionError};
use zen_sm::gfx::{parse_graphics, unpack_4bpp, GfxError};
use zen_sm::level::{
    block_from_word, block_to_word, parse_level_data, Block, BlockType, LevelData, LevelError,
};
use zen_sm::palette::{
    from_rgb888, parse_palette, serialize_palette, to_rgb888, Bgr555, PaletteError, Rgb888,
};
use zen_sm::room::{parse_room, parse_state, parse_tileset, RecordError, Tileset};
use zen_sm::tile_table::{
    parse_tile_table, tile_table_from_bytes, tileset_size, tileset_to_indexed_colors, IndexedColor,
    TileTable, TileTableError,
};

#[test]
fn lorom_address_mapping() {
    assert_eq!(pc_to_snes(0), 0x80_8000);
    assert_eq!(pc_to_snes(0x78000), 0x8F_8000);
    assert_eq!(pc_to_snes(0x7E6A2), 0x8F_E6A2);
    assert_eq!(snes_to_pc(0x8F_8000), Some(0x78000));
    assert_eq!(snes_to_pc(0xB9_A09D), Some(0x1C_A09D));
    assert_eq!(snes_to_pc(0x8F_7FFF), None);
    assert_eq!(snes_to_pc(0x0F_8000), None);
}

#[test]
fn bounded_reads_and_writes() {
    let b = vec![0x34u8, 0x12, 0x56];
    assert_eq!(read_u8(&b, 2), Ok(0x56));
    assert_eq!(read_u8(&b, 3), Err(OutOfBounds));
    assert_eq!(read_u16(&b, 0), Ok(0x1234));
    assert_eq!(read_u16(&b, 2), Err(OutOfBounds));
    assert_eq!(read_u24(&b, 0), Ok(0x56_1234));
    let mut w = vec![0u8; 4];
    assert_eq!(write_bytes(&mut w, 1, &[7, 8]), Ok(()));
    assert_eq!(w, vec![0, 7, 8, 0]);
    assert_eq!(write_bytes(&mut w, 3, &[1, 2]), Err(OutOfBounds));
    assert_eq!(w, vec![0, 7, 8, 0]);
}

#[test]
fn decompress_every_command() {
    // literal 3, byte fill 4, word fill 5, incrementing fill 3,
    // absolute copy 2 from 0, complemented absolute copy 1 from 1,
    // relative copy 2 from 3 back, complemented relative copy 1 from 1 back.
    let stream = vec![
        0x02, 1, 2, 3, //
        0x23, 9, //
        0x44, 0xA, 0xB, //
        0x62, 0xFE, //
        0x81, 0x00, 0x00, //
        0xA0, 0x01, 0x00, //
        0xC1, 0x03, //
        0xE0 + 7 * 4, 0x00, 0x01, //
        0xFF,
    ];
    let mut want = vec![1u8, 2, 3, 9, 9, 9, 9, 0xA, 0xB, 0xA, 0xB, 0xA, 0xFE, 0xFF, 0x00];
    want.push(1);
    want.push(2);
    want.push(255 - 2);
    let n = want.len();
    want.push(want[n - 3]);
    want.push(want[n - 2]);
    let last = want[want.len() - 1];
    want.push(255 - last);
    assert_eq!(decompress(&stream), Ok(want));
}

#[test]
fn decompress_long_header() {
    // Extended header: byte fill of 300 bytes.
    let stream = vec![0xE4 | 1, 43, 0x55, 0xFF];
    assert_eq!(decompress(&stream), Ok(vec![0x55u8; 300]));
}

#[test]
fn decompress_rejects_malformed_streams() {
    assert_eq!(decompress(&[]), Err(DecompressionError::MalformedStream));
    assert_eq!(decompress(&[0x02, 1, 2]), Err(DecompressionError::MalformedStream));
    assert_eq!(decompress(&[0x02, 1, 2, 3]), Err(DecompressionError::MalformedStream));
    assert_eq!(decompress(&[0x80, 0x05, 0x00, 0xFF]), Err(DecompressionError::MalformedStream));
    assert_eq!(decompress(&[0xC0, 0x01, 0xFF]), Err(DecompressionError::MalformedStream));
}

#[test]
fn decompress_at_offset_reports_end() {
    let data = vec![0xAA, 0xBB, 0x21, 7, 0xFF, 0x99];
    assert_eq!(decompress_at(&data, 2), Ok((vec![7u8, 7], 5)));
    assert!(decompress_at(&data, 7).is_err());
}

#[test]
fn compress_round_trips() {
    let mut cases: Vec<Vec<u8>> = vec![vec![], vec![0], vec![1, 2], vec![5; 3], vec![0; 5000]];
    let mut mixed = Vec::new();
    let mut x: u32 = 12345;
    for i in 0..3000u32 {
        x = x.wrapping_mul(1103515245).wrapping_add(12345);
        let v = if (i / 50) % 2 == 0 { (x >> 16) as u8 } else { 7 };
        mixed.push(v);
    }
    cases.push(mixed);
    let all: Vec<u8> = (0..=255u8).collect();
    cases.push(all);
    for c in cases {
        let packed = compress(&c);
        assert_eq!(decompress(&packed), Ok(c.clone()));
        let mut trailing = packed.clone();
        trailing.extend_from_slice(&[1, 2, 3]);
        assert_eq!(decompress(&trailing), Ok(c));
    }
}

#[test]
fn compress_uses_fills_for_runs() {
    let packed = compress(&[0u8; 256]);
    assert_eq!(packed, vec![0xE4, 0xFF, 0x00, 0xFF]);
    assert_eq!(compress(&[]), vec![0xFF]);
    assert_eq!(compress(&[1, 2]), vec![0x01, 1, 2, 0xFF]);
}

fn sample_palette_bytes() -> Vec<u8> {
    let mut b = Vec::new();
    for i in 0..128u32 {
        let w = ((i * 2113) % 0x8000) as u16;
        b.push((w % 256) as u8);
        b.push((w / 256) as u8);
    }
    b
}

#[test]
fn palette_round_trip() {
    let b = sample_palette_bytes();
    let p = parse_palette(&b).unwrap();
    assert_eq!(p.colors.len(), 128);
    assert_eq!(serialize_palette(&p), b);
    assert_eq!(p.colors[1], Bgr555 { r: (2113 % 32) as u8, g: (2113 / 32 % 32) as u8, b: (2113 / 1024) as u8 });
}

#[test]
fn palette_drops_the_top_bit() {
    let mut b = vec![0u8; 256];
    b[0] = 0xFF;
    b[1] = 0xFF;
    let p = parse_palette(&b).unwrap();
    assert_eq!(p.colors[0], Bgr555 { r: 31, g: 31, b: 31 });
    let out = serialize_palette(&p);
    assert_eq!(out[0], 0xFF);
    assert_eq!(out[1], 0x7F);
}

#[test]
fn palette_wrong_length() {
    assert!(matches!(parse_palette(&[0u8; 255]), Err(PaletteError::WrongLength)));
    assert!(matches!(parse_palette(&[0u8; 258]), Err(PaletteError::WrongLength)));
}

#[test]
fn color_widening_and_narrowing() {
    assert_eq!(to_rgb888(Bgr555 { r: 31, g: 0, b: 16 }), Rgb888 { r: 255, g: 0, b: 132 });
    assert_eq!(from_rgb888(Rgb888 { r: 255, g: 7, b: 132 }), Bgr555 { r: 31, g: 0, b: 16 });
    for c in 0..32u8 {
        let s = Bgr555 { r: c, g: 31 - c, b: c / 2 };
        assert_eq!(from_rgb888(to_rgb888(s)), s);
    }
}

#[test]
fn palette_set_color_and_views() {
    let mut p = parse_palette(&sample_palette_bytes()).unwrap();
    p.set_color(2, 5, Rgb888 { r: 8, g: 16, b: 248 });
    assert_eq!(p.color(2, 5), Bgr555 { r: 1, g: 2, b: 31 });
    assert_eq!(p.colors[37], Bgr555 { r: 1, g: 2, b: 31 });
    let sub = p.sub_palette_rgb(2);
    assert_eq!(sub.len(), 16);
    assert_eq!(sub[5], Rgb888 { r: 8, g: 16, b: 255 });
    assert_eq!(p.to_colors().len(), 128);
}

fn one_tile() -> Vec<u8> {
    // Row 0: plane 0 = 0b1000_0001, plane 3 = 0b1000_0000; row 7: plane 1 = 0xFF.
    let mut t = vec![0u8; 32];
    t[0] = 0b1000_0001;
    t[17] = 0b1000_0000;
    t[15] = 0xFF;
    t
}

#[test]
fn unpack_planar_tile() {
    let g = unpack_4bpp(&one_tile()).unwrap();
    assert_eq!(g.pixels.len(), 64);
    assert_eq!(g.pixels[0], 9);
    assert_eq!(g.pixels[7], 1);
    assert_eq!(g.pixels[1], 0);
    assert_eq!(g.pixels[56], 2);
    assert_eq!(g.pixels[63], 2);
    assert_eq!(g.tile_count(), 1);
    assert!(matches!(unpack_4bpp(&[0u8; 31]), Err(GfxError::WrongLength)));
}

#[test]
fn parse_compressed_graphics() {
    let g = parse_graphics(&compress(&one_tile())).unwrap();
    assert_eq!(g.pixels[0], 9);
    assert!(matches!(parse_graphics(&[0x00]), Err(GfxError::MalformedStream)));
    let sheet = g.to_indexed_colors();
    assert_eq!(g.size(), (128, 8));
    assert_eq!(sheet.len(), 1024);
    assert_eq!(sheet[0], 9);
    assert_eq!(sheet[7 * 128 + 7], 2);
    assert_eq!(sheet[8], 0);
}

#[test]
fn tile_table_rendering() {
    let gfx = unpack_4bpp(&one_tile()).unwrap();
    // One block: tile 0 plain, tile 0 flipped horizontally with sub-palette 3,
    // tile 0 flipped vertically, and a missing tile.
    let words: Vec<u16> = vec![0x0000, 0x4000 | (3 << 10), 0x8000, 0x0005];
    let mut bytes = Vec::new();
    for w in &words {
        bytes.push((w % 256) as u8);
        bytes.push((w / 256) as u8);
    }
    let tt = tile_table_from_bytes(&bytes).unwrap();
    assert_eq!(tt.entries, words);
    assert_eq!(tt.block_count(), 1);
    let sheet = tileset_to_indexed_colors(&tt, &gfx.pixels);
    assert_eq!(tileset_size(&tt), [512, 16]);
    assert_eq!(sheet.len(), 512 * 16);
    assert_eq!(sheet[0], IndexedColor { index: 9, sub_palette: 0 });
    assert_eq!(sheet[8], IndexedColor { index: 1, sub_palette: 3 });
    assert_eq!(sheet[15], IndexedColor { index: 9, sub_palette: 3 });
    assert_eq!(sheet[8 * 512], IndexedColor { index: 2, sub_palette: 0 });
    assert_eq!(sheet[15 * 512], IndexedColor { index: 9, sub_palette: 0 });
    assert_eq!(sheet[8 * 512 + 8], IndexedColor { index: 0, sub_palette: 0 });
    assert_eq!(sheet[16], IndexedColor { index: 0, sub_palette: 0 });
    assert!(tile_table_from_bytes(&[0u8; 6]).is_err());
    assert!(matches!(parse_tile_table(&[0x00]), Err(TileTableError::MalformedStream)));
    assert!(matches!(parse_tile_table(&compress(&[0u8; 6])), Err(TileTableError::WrongLength)));
    assert_eq!(parse_tile_table(&compress(&bytes)).unwrap().entries, words);
}

#[test]
fn block_words() {
    let b = block_from_word(0x1C05);
    assert_eq!(
        b,
        Block { block_number: 5, h_flip: true, v_flip: true, block_type: BlockType::Slope }
    );
    assert_eq!(block_to_word(b), 0x1C05);
    assert_eq!(block_from_word(0xF3FF).block_type, BlockType::Bombable);
    assert_eq!(BlockType::from_code(8), BlockType::Solid);
    assert_eq!(BlockType::Door.code(), 9);
}

fn level_bytes(n: usize) -> Vec<u8> {
    let mut b = vec![(2 * n % 256) as u8, (2 * n / 256) as u8];
    for i in 0..n {
        let w = (0x8000 | i) as u16;
        b.push((w % 256) as u8);
        b.push((w / 256) as u8);
    }
    for i in 0..n {
        b.push(i as u8);
    }
    b.extend_from_slice(&[0xAB, 0xCD]);
    b
}

#[test]
fn level_data_round_trip() {
    let b = level_bytes(4);
    let l = LevelData::from_bytes(&b, 4).unwrap();
    assert_eq!(l.layer1.len(), 4);
    assert_eq!(l.layer1[3], Block { block_number: 3, h_flip: false, v_flip: false, block_type: BlockType::Solid });
    assert_eq!(l.bts, vec![0, 1, 2, 3]);
    assert_eq!(l.layer2, vec![0xAB, 0xCD]);
    assert_eq!(l.to_bytes(), b);
}

#[test]
fn level_data_errors() {
    let b = level_bytes(4);
    assert!(matches!(LevelData::from_bytes(&b, 5), Err(LevelError::SizeMismatch)));
    assert!(matches!(LevelData::from_bytes(&b[..10], 4), Err(LevelError::Truncated)));
    assert!(matches!(LevelData::from_bytes(&[8], 4), Err(LevelError::SizeMismatch)));
}

#[test]
fn level_rendering_with_flips() {
    let gfx = unpack_4bpp(&one_tile()).unwrap();
    let tt = TileTable { entries: vec![0, 0, 0, 0] };
    let l = LevelData {
        layer1: vec![
            Block { block_number: 0, h_flip: false, v_flip: false, block_type: BlockType::Solid },
            Block { block_number: 0, h_flip: true, v_flip: false, block_type: BlockType::Solid },
            Block { block_number: 9, h_flip: false, v_flip: false, block_type: BlockType::Air },
            Block { block_number: 0, h_flip: false, v_flip: true, block_type: BlockType::Solid },
        ],
        bts: vec![0; 4],
        layer2: vec![],
    };
    let pic = l.to_indexed_colors(2, 2, &tt, &gfx.pixels);
    assert_eq!(pic.len(), 32 * 32);
    assert_eq!(pic[0].index, 9);
    assert_eq!(pic[16 + 15].index, 9);
    assert_eq!(pic[16 + 8].index, 1);
    assert_eq!(pic[16 * 32].index, 0);
    assert_eq!(pic[31 * 32 + 16].index, 9);
    assert_eq!(pic[16 * 32 + 16 + 7 * 32].index, 9);
    assert_eq!(pic[16 * 32 + 16 + 8 * 32 + 7].index, 2);
}

#[test]
fn records() {
    let mut rom = vec![0u8; 0x80000];
    // Tileset record at 0x100: tile table $C1:8000, graphics $C1:9000, palette $C1:A000.
    rom[0x100..0x109].copy_from_slice(&[0x00, 0x80, 0xC1, 0x00, 0x90, 0xC1, 0x00, 0xA0, 0xC1]);
    let t = parse_tileset(&rom, 0x100).unwrap();
    assert_eq!(t, Tileset { tile_table: 0x20_8000, graphic: 0x20_9000, palette: 0x20_A000 });
    assert_eq!(t.to_bytes(), rom[0x100..0x109].to_vec());
    assert_eq!(parse_tileset(&rom, 0x80000 - 4), Err(RecordError::OutOfBounds));
    assert_eq!(parse_tileset(&rom, 0x200), Err(RecordError::InvalidPointer));

    // State at 0x300: level $C2:8000, tileset 7, then the kept fields.
    let mut st = vec![0x00, 0x80, 0xC2, 7, 1, 2];
    for i in 0..10u8 {
        st.push(i);
        st.push(0x80 + i);
    }
    rom[0x300..0x300 + 26].copy_from_slice(&st);
    let s = parse_state(&rom, 0x300).unwrap();
    assert_eq!(s.level_address, 0x21_0000);
    assert_eq!(s.tileset, 7);
    assert_eq!(s.setup_asm, 0x8909);
    assert_eq!(s.to_bytes(), st);

    // Room at 0x400: one condition then the default state.
    let header = [3u8, 1, 10, 11, 2, 3, 0x70, 0xA0, 0, 0x34, 0x12];
    rom[0x400..0x40B].copy_from_slice(&header);
    rom[0x40B..0x413].copy_from_slice(&[0x12, 0xE6, 0x00, 0x90, 0xE6, 0xE5, 0, 0]);
    let room = parse_room(&rom, 0x400).unwrap();
    assert_eq!(room.width, 2);
    assert_eq!(room.height, 3);
    assert_eq!(room.door_list, 0x1234);
    assert_eq!(room.size(), (32, 48));
    assert_eq!(room.block_count(), 32 * 48);
    assert_eq!(room.size_in_pixels(), [512, 768]);
    assert_eq!(room.state_conditions.len(), 2);
    assert_eq!(room.state_conditions[0].condition, 0xE612);
    assert_eq!(room.state_conditions[0].state_address, 0x79000);
    assert_eq!(room.state_conditions[1].condition, 0xE5E6);
    assert_eq!(room.state_conditions[1].state_address, 0x411);
    rom[0x40D] = 0x00;
    rom[0x40E] = 0x10;
    assert!(matches!(parse_room(&rom, 0x400), Err(RecordError::InvalidPointer)));
    assert!(matches!(parse_room(&rom, 0x80000 - 12), Err(RecordError::OutOfBounds)));
}

#[test]
fn parse_compressed_level_data() {
    let b = level_bytes(4);
    let l = parse_level_data(&compress(&b), 4).unwrap();
    assert_eq!(l.to_bytes(), b);
    assert!(matches!(parse_level_data(&[0x00], 4), Err(LevelError::MalformedStream)));
    assert!(matches!(parse_level_data(&compress(&b), 3), Err(LevelError::SizeMismatch)));
}

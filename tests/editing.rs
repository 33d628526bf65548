use zen_sm::editing::{
    crop, indexed_colors_to_rgba, paste, mirror_horizontally, mirror_vertically, parse_bts_icon_name,
    rgb888s_to_rgba, selection_between, slope_variants, tile_table_selection, BlockRect, BtsTile,
};
use zen_sm::level::{Block, BlockType, LevelData};
use zen_sm::palette::{parse_palette, Rgb888};
use zen_sm::tile_table::IndexedColor;

#[test]
fn rgba_bytes() {
    let c = vec![Rgb888 { r: 1, g: 2, b: 3 }, Rgb888 { r: 4, g: 5, b: 6 }];
    assert_eq!(rgb888s_to_rgba(&c), vec![1, 2, 3, 255, 4, 5, 6, 255]);
    assert_eq!(rgb888s_to_rgba(&vec![]), Vec::<u8>::new());
}

#[test]
fn indexed_rgba_bytes() {
    let mut b = vec![0u8; 256];
    b[2 * 17] = 31;
    let p = parse_palette(&b).unwrap();
    let colors = vec![IndexedColor { index: 1, sub_palette: 1 }, IndexedColor { index: 0, sub_palette: 0 }];
    assert_eq!(indexed_colors_to_rgba(&colors, &p), vec![255, 0, 0, 255, 0, 0, 0, 255]);
}

#[test]
fn crop_rectangle() {
    let pixels: Vec<u32> = (0..20).collect();
    assert_eq!(crop(&pixels, 5, 1, 2, 3, 2), vec![11, 12, 13, 16, 17, 18]);
    assert_eq!(crop(&pixels, 5, 0, 0, 0, 4), Vec::<u32>::new());
}

#[test]
fn mirrors() {
    let pixels: Vec<u16> = (0..256).collect();
    let h = mirror_horizontally(&pixels);
    assert_eq!(h[0], 15);
    assert_eq!(h[17], 30);
    let v = mirror_vertically(&pixels);
    assert_eq!(v[0], 240);
    assert_eq!(v[255], 15);
    assert_eq!(mirror_horizontally(&h), pixels);
    assert_eq!(mirror_vertically(&v), pixels);
}

#[test]
fn bts_icon_names() {
    assert_eq!(
        parse_bts_icon_name(b"1_0a"),
        Some(BtsTile { block_type: BlockType::Slope, bts_block: 0x0A })
    );
    assert_eq!(
        parse_bts_icon_name(b"0B_1F"),
        Some(BtsTile { block_type: BlockType::Crumble, bts_block: 0x1F })
    );
    assert_eq!(parse_bts_icon_name(b"1-0a"), None);
    assert_eq!(parse_bts_icon_name(b"1_0g"), None);
    assert_eq!(parse_bts_icon_name(b"1_123"), None);
}

#[test]
fn slope_icon_variants() {
    let t = BtsTile { block_type: BlockType::Slope, bts_block: 0x05 };
    let v = slope_variants(t);
    assert_eq!(v.len(), 3);
    assert_eq!(v[0].bts_block, 0x45);
    assert_eq!(v[1].bts_block, 0x85);
    assert_eq!(v[2].bts_block, 0xC5);
    assert!(slope_variants(BtsTile { block_type: BlockType::Solid, bts_block: 1 }).is_empty());
}

fn numbered_level(width: usize, height: usize) -> LevelData {
    let n = width * height;
    LevelData {
        layer1: (0..n)
            .map(|i| Block { block_number: i as u16, h_flip: false, v_flip: false, block_type: BlockType::Solid })
            .collect(),
        bts: (0..n).map(|i| i as u8).collect(),
        layer2: vec![],
    }
}

#[test]
fn selection_rectangles() {
    assert_eq!(selection_between((5, 2), (3, 4)), BlockRect { min_x: 3, min_y: 2, max_x: 6, max_y: 5 });
    assert_eq!(selection_between((1, 1), (1, 1)), BlockRect { min_x: 1, min_y: 1, max_x: 2, max_y: 2 });
}

#[test]
fn tile_table_selection_names_blocks() {
    let sel = tile_table_selection(32, BlockRect { min_x: 2, min_y: 1, max_x: 4, max_y: 3 });
    let numbers: Vec<u16> = sel.iter().map(|(b, _)| b.block_number).collect();
    assert_eq!(numbers, vec![34, 66, 35, 67]);
    assert!(sel.iter().all(|(b, t)| *t == 0 && b.block_type == BlockType::Air && !b.h_flip));
}

#[test]
fn extract_then_apply_selection() {
    let level = numbered_level(4, 3);
    let sel = level.extract_selection(4, BlockRect { min_x: 1, min_y: 0, max_x: 3, max_y: 2 });
    let numbers: Vec<u16> = sel.iter().map(|(b, _)| b.block_number).collect();
    assert_eq!(numbers, vec![1, 5, 2, 6]);
    assert_eq!(sel[1].1, 5);
    let mut target = numbered_level(4, 3);
    target.apply_selection(4, 2, 1, 2, 2, &sel);
    let after: Vec<u16> = target.layer1.iter().map(|b| b.block_number).collect();
    assert_eq!(after, vec![0, 1, 2, 3, 4, 5, 1, 2, 8, 9, 5, 6]);
    assert_eq!(target.bts[10], 5);
    // A short selection leaves the rest of the rectangle alone.
    let mut partial = numbered_level(4, 3);
    partial.apply_selection(4, 0, 0, 2, 2, &sel[..3].to_vec());
    let after: Vec<u16> = partial.layer1.iter().map(|b| b.block_number).collect();
    assert_eq!(after, vec![1, 2, 2, 3, 5, 5, 6, 7, 8, 9, 10, 11]);
}

#[test]
fn paste_image() {
    let mut pixels = vec![0u8; 20];
    paste(&mut pixels, 5, 2, 1, 2, &vec![1, 2, 3, 4]);
    assert_eq!(
        pixels,
        vec![0, 0, 0, 0, 0, 0, 0, 1, 2, 0, 0, 0, 3, 4, 0, 0, 0, 0, 0, 0]
    );
    let before = pixels.clone();
    paste(&mut pixels, 5, 0, 3, 3, &vec![]);
    assert_eq!(pixels, before);
}

use zen_sm::address::pc_to_snes;
use zen_sm::compression::compress;
use zen_sm::level::{Block, BlockType};
use zen_sm::palette::{Bgr555, Rgb888};
use zen_sm::super_metroid::SaveError;
use zen_sm::super_metroid::{LoadError, SuperMetroid, CRE_GFX_PC, CRE_TILE_TABLE_PC};
use zen_sm::room::Tileset;

const PAL_ZERO: usize = 0x0C0000;
const PAL_MIXED: usize = 0x0C1000;
const GFX: usize = 0x0C2000;
const TILES: usize = 0x0C3000;
const LEVEL_1: usize = 0x0C4000;
const LEVEL_2: usize = 0x0C5000;
const ROOM_1: usize = 0x79000;
const ROOM_2: usize = 0x79100;
const STATE_1: usize = 0x7900D;
const STATE_2: usize = 0x7910D;

fn put(rom: &mut Vec<u8>, at: usize, bytes: &[u8]) {
    rom[at..at + bytes.len()].copy_from_slice(bytes);
}

fn long_pointer(pc: usize) -> [u8; 3] {
    let a = pc_to_snes(pc);
    [(a & 0xFF) as u8, ((a >> 8) & 0xFF) as u8, (a >> 16) as u8]
}

fn mixed_palette() -> Vec<u8> {
    let mut b = Vec::new();
    for i in 0..128u32 {
        let w = ((i * 2113 + 7) % 0x8000) as u16;
        b.push((w % 256) as u8);
        b.push((w / 256) as u8);
    }
    b
}

fn tile(seed: u8) -> Vec<u8> {
    (0..32u8).map(|i| i.wrapping_mul(seed).wrapping_add(seed)).collect()
}

fn level(n: usize, salt: u16) -> Vec<u8> {
    let mut b = vec![(2 * n % 256) as u8, (2 * n / 256) as u8];
    for i in 0..n {
        let w = 0x8000 | ((i as u16 + salt) % 2);
        b.push((w % 256) as u8);
        b.push((w / 256) as u8);
    }
    for i in 0..n {
        b.push((i % 3) as u8);
    }
    b
}

fn state(level_pc: usize, tileset: u8) -> Vec<u8> {
    let mut s = long_pointer(level_pc).to_vec();
    s.push(tileset);
    s.extend_from_slice(&[0u8; 22]);
    s
}

/// A two-room image whose rooms share tileset 0.
fn fixture(size: usize) -> Vec<u8> {
    let mut rom = vec![0u8; size];
    put(&mut rom, 0x7FC0, b"Super Metroid        ");
    put(&mut rom, PAL_ZERO, &compress(&[0u8; 256]));
    put(&mut rom, PAL_MIXED, &compress(&mixed_palette()));
    let mut g = Vec::new();
    for s in 1..=4u8 {
        g.extend(tile(s));
    }
    put(&mut rom, GFX, &compress(&g));
    let words: Vec<u8> = vec![0, 0, 1, 0, 2, 0x40, 3, 0x80, 0, 0x0C, 1, 0, 2, 0, 0x80, 0x02];
    put(&mut rom, TILES, &compress(&words));
    put(&mut rom, CRE_GFX_PC, &compress(&tile(9)));
    put(&mut rom, CRE_TILE_TABLE_PC, &compress(&[0x80, 0x02, 0x80, 0x02, 0x80, 0x02, 0x80, 0x02]));
    for i in 0..29usize {
        let palette = if i == 1 { PAL_MIXED } else { PAL_ZERO };
        let mut rec = long_pointer(TILES).to_vec();
        rec.extend(long_pointer(GFX));
        rec.extend(long_pointer(palette));
        put(&mut rom, 0x7E6A2 + 9 * i, &rec);
    }
    put(&mut rom, 0x7FE00, &[2, 0, 0x00, 0x90, 0x00, 0x91]);
    for (room, level_pc, salt) in [(ROOM_1, LEVEL_1, 0u16), (ROOM_2, LEVEL_2, 1u16)] {
        put(&mut rom, room, &[0, 0, 1, 2, 1, 1, 0x70, 0xA0, 0, 0, 0]);
        put(&mut rom, room + 11, &[0xE6, 0xE5]);
        put(&mut rom, room + 13, &state(level_pc, 0));
        put(&mut rom, level_pc, &compress(&level(256, salt)));
    }
    rom
}

fn load() -> SuperMetroid {
    SuperMetroid::load_unheadered_rom(fixture(0x200000)).unwrap()
}

#[test]
fn load_fixture() {
    let sm = load();
    assert_eq!(sm.room_addresses(), vec![ROOM_1, ROOM_2]);
    assert_eq!(sm.tileset(0), Some(Tileset { tile_table: TILES, graphic: GFX, palette: PAL_ZERO }));
    assert_eq!(sm.tileset(1).unwrap().palette, PAL_MIXED);
    assert_eq!(sm.tileset(29), None);
    assert_eq!(sm.palette_addresses(), vec![PAL_ZERO, PAL_MIXED]);
    let room = sm.room(ROOM_1).unwrap();
    assert_eq!(room.state_conditions.len(), 1);
    assert_eq!(room.state_conditions[0].state_address, STATE_1);
    let s = sm.state(STATE_2).unwrap();
    assert_eq!(s.level_address, LEVEL_2);
    assert_eq!(s.tileset, 0);
    assert!(sm.palette(PAL_ZERO).unwrap().colors.iter().all(|c| *c == Bgr555 { r: 0, g: 0, b: 0 }));
    let l = sm.level(LEVEL_1).unwrap();
    assert_eq!(l.layer1.len(), 256);
    assert_eq!(l.layer1[1].block_number, 1);
    assert_eq!(l.bts[2], 2);
    let (p, g, t) = sm.get_tileset_data(1).unwrap();
    assert_eq!(p.colors.len(), 128);
    assert_eq!(g.pixels.len(), 4 * 64);
    assert_eq!(t.entries.len(), 8);
    assert!(sm.get_tileset_data(29).is_none());
}

#[test]
fn rejects_bad_headers() {
    assert!(matches!(SuperMetroid::load_unheadered_rom(vec![0u8; 0x10000]), Err(LoadError::InvalidHeader)));
    assert!(matches!(SuperMetroid::load_unheadered_rom(vec![0u8; 100]), Err(LoadError::InvalidHeader)));
    let mut big = fixture(0x200000);
    big.resize(0x400001, 0);
    assert!(matches!(SuperMetroid::load_unheadered_rom(big), Err(LoadError::InvalidHeader)));
}

#[test]
fn rejects_broken_streams() {
    let mut rom = fixture(0x200000);
    put(&mut rom, PAL_ZERO, &[0x80, 0x05, 0x00, 0xFF]);
    assert!(matches!(SuperMetroid::load_unheadered_rom(rom), Err(LoadError::MalformedStream)));
    let mut rom = fixture(0x200000);
    put(&mut rom, PAL_ZERO, &compress(&[0u8; 100]));
    assert!(matches!(SuperMetroid::load_unheadered_rom(rom), Err(LoadError::InvalidData)));
    let mut rom = fixture(0x200000);
    put(&mut rom, 0x7FE00 + 2, &[0x00, 0x10]);
    assert!(matches!(SuperMetroid::load_unheadered_rom(rom), Err(LoadError::InvalidPointer)));
}

#[test]
fn example_two_rooms_share_a_tileset() {
    let mut sm = load();
    let s1 = sm.state(sm.room(ROOM_1).unwrap().state_conditions[0].state_address).unwrap();
    let s2 = sm.state(sm.room(ROOM_2).unwrap().state_conditions[0].state_address).unwrap();
    assert_eq!(sm.tileset(s1.tileset as usize), sm.tileset(s2.tileset as usize));
    assert!(sm.set_tileset_palette(0, PAL_MIXED));
    let mixed = sm.palette(PAL_MIXED).unwrap().colors.clone();
    assert_eq!(sm.get_state_data(&s1).unwrap().1.colors, mixed);
    assert_eq!(sm.get_state_data(&s2).unwrap().1.colors, mixed);
    assert!(!sm.set_tileset_palette(0, 0x123));
    let remap = sm.save_to_rom().unwrap();
    assert_eq!(remap.palettes.len(), 0);
    assert_eq!(remap.levels.len(), 0);
    let again = SuperMetroid::load_unheadered_rom(sm.rom.clone()).unwrap();
    assert_eq!(again.tileset(0).unwrap().palette, PAL_MIXED);
}

#[test]
fn save_without_edits_changes_nothing() {
    let mut sm = load();
    let before = sm.rom.clone();
    let remap = sm.save_to_rom().unwrap();
    assert_eq!(remap.palettes.len(), 0);
    assert_eq!(remap.levels.len(), 0);
    assert_eq!(sm.rom, before);
    let again = SuperMetroid::load_unheadered_rom(sm.rom.clone()).unwrap();
    assert_eq!(again.room_addresses(), sm.room_addresses());
    for a in sm.palette_addresses() {
        assert_eq!(again.palette(a).unwrap().colors, sm.palette(a).unwrap().colors);
    }
    for a in [STATE_1, STATE_2] {
        assert_eq!(again.state(a), sm.state(a));
    }
    for a in [LEVEL_1, LEVEL_2] {
        assert_eq!(again.level(a).unwrap().layer1, sm.level(a).unwrap().layer1);
        assert_eq!(again.level(a).unwrap().bts, sm.level(a).unwrap().bts);
    }
    for i in 0..29 {
        assert_eq!(again.tileset(i), sm.tileset(i));
    }
}

#[test]
fn edited_palette_saved_in_place() {
    let mut sm = load();
    assert!(sm.set_palette_color(PAL_MIXED, 0, 1, Rgb888 { r: 255, g: 8, b: 0 }));
    let remap = sm.save_to_rom().unwrap();
    let addr = remap.palette_address(PAL_MIXED);
    assert_eq!(addr, PAL_MIXED);
    let again = SuperMetroid::load_unheadered_rom(sm.rom.clone()).unwrap();
    assert_eq!(again.palette(addr).unwrap().color(0, 1), Bgr555 { r: 31, g: 1, b: 0 });
}

#[test]
fn edited_palette_that_grows_moves() {
    let mut sm = load();
    let old_len = sm.rom.len();
    assert!(sm.set_palette_color(PAL_ZERO, 3, 4, Rgb888 { r: 80, g: 160, b: 240 }));
    assert!(!sm.set_palette_color(0x42, 3, 4, Rgb888 { r: 80, g: 160, b: 240 }));
    let remap = sm.save_to_rom().unwrap();
    let addr = remap.palette_address(PAL_ZERO);
    assert_eq!(addr, old_len);
    assert_eq!(sm.tileset(0).unwrap().palette, addr);
    assert_eq!(sm.tileset(1).unwrap().palette, PAL_MIXED);
    assert!(sm.palette(PAL_ZERO).is_none());
    let again = SuperMetroid::load_unheadered_rom(sm.rom.clone()).unwrap();
    assert_eq!(again.tileset(0).unwrap().palette, addr);
    assert_eq!(again.palette(addr).unwrap().color(3, 4), Bgr555 { r: 10, g: 20, b: 30 });
    assert_eq!(again.palette(addr).unwrap().color(3, 5), Bgr555 { r: 0, g: 0, b: 0 });
}

#[test]
fn save_reports_out_of_space() {
    let mut sm = SuperMetroid::load_unheadered_rom(fixture(0x400000)).unwrap();
    assert!(sm.set_palette_color(PAL_ZERO, 0, 0, Rgb888 { r: 255, g: 255, b: 255 }));
    let before = sm.rom.clone();
    assert!(matches!(sm.save_to_rom(), Err(SaveError::OutOfSpace)));
    assert_eq!(sm.rom, before);
    assert_eq!(sm.palette(PAL_ZERO).unwrap().color(0, 0), Bgr555 { r: 31, g: 31, b: 31 });
}

#[test]
fn edited_level_and_state_are_saved() {
    let mut sm = load();
    let b = Block { block_number: 1, h_flip: true, v_flip: false, block_type: BlockType::Crumble };
    assert!(sm.set_level_block(LEVEL_1, 17, b, 0x42));
    assert!(!sm.set_level_block(LEVEL_1, 256, b, 0x42));
    assert!(sm.set_state_tileset(STATE_2, 1));
    assert!(!sm.set_state_tileset(STATE_2, 29));
    let remap = sm.save_to_rom().unwrap();
    let level_addr = remap.level_address(LEVEL_1);
    let again = SuperMetroid::load_unheadered_rom(sm.rom.clone()).unwrap();
    assert_eq!(again.state(STATE_1).unwrap().level_address, level_addr);
    let l = again.level(level_addr).unwrap();
    assert_eq!(l.layer1[17], b);
    assert_eq!(l.bts[17], 0x42);
    assert_eq!(l.layer1[16], sm.level(level_addr).unwrap().layer1[16]);
    assert_eq!(again.state(STATE_2).unwrap().tileset, 1);
}

#[test]
fn common_graphics_merge() {
    let sm = load();
    let a = sm.gfx_with_cre(GFX).unwrap();
    let b = sm.gfx_with_cre(GFX).unwrap();
    assert_eq!(a.pixels, b.pixels);
    let own = &sm.get_tileset_data(0).unwrap().1.pixels;
    assert_eq!(a.pixels.len(), 640 * 64 + 64);
    assert_eq!(a.pixels[..own.len()], own[..]);
    assert_eq!(a.pixels[own.len()], 0);
    let cre = zen_sm::gfx::unpack_4bpp(&tile(9)).unwrap();
    assert_eq!(a.pixels[640 * 64..], cre.pixels[..]);
    assert!(sm.gfx_with_cre(0x1234).is_none());
}

#[test]
fn common_tile_table_merge() {
    let sm = load();
    let t = sm.tile_table_with_cre(TILES).unwrap();
    assert_eq!(t.entries.len(), 4 + 8);
    assert_eq!(t.entries[..4], [0x0280u16; 4]);
    assert_eq!(t.entries[4], 0);
    assert_eq!(t.entries[7], 0x8003);
    assert!(sm.tile_table_with_cre(0x1234).is_none());
}

#[test]
fn pasted_level_selection_is_saved() {
    let mut sm = load();
    let data = vec![
        (Block { block_number: 7, h_flip: false, v_flip: true, block_type: BlockType::Spike }, 3u8),
        (Block { block_number: 8, h_flip: false, v_flip: false, block_type: BlockType::Door }, 4u8),
    ];
    assert!(sm.apply_level_selection(LEVEL_2, 16, 5, 6, 1, 2, &data));
    assert!(!sm.apply_level_selection(LEVEL_2, 16, 15, 6, 2, 2, &data));
    assert!(!sm.apply_level_selection(LEVEL_2, 16, 0, 15, 1, 2, &data));
    sm.save_to_rom().unwrap();
    let again = SuperMetroid::load_unheadered_rom(sm.rom.clone()).unwrap();
    let addr = again.state(STATE_2).unwrap().level_address;
    let l = again.level(addr).unwrap();
    assert_eq!(l.layer1[6 * 16 + 5], data[0].0);
    assert_eq!(l.layer1[7 * 16 + 5], data[1].0);
    assert_eq!(l.bts[7 * 16 + 5], 4);
    assert_eq!(l.layer1[6 * 16 + 6].block_type, BlockType::Solid);
}

#[test]
fn opening_selection() {
    let sm = load();
    assert_eq!(sm.sorted_room_addresses(), vec![ROOM_1, ROOM_2]);
    assert_eq!(sm.first_selection(), Some((ROOM_1, STATE_1, 0)));
    assert_eq!(sm.room_selection(ROOM_2), Some((STATE_2, 0)));
    assert_eq!(sm.room_selection(0x1234), None);
}

#[test]
fn room_table_order_does_not_change_sorting() {
    let mut rom = fixture(0x200000);
    put(&mut rom, 0x7FE00, &[2, 0, 0x00, 0x91, 0x00, 0x90]);
    let sm = SuperMetroid::load_unheadered_rom(rom).unwrap();
    assert_eq!(sm.room_addresses(), vec![ROOM_2, ROOM_1]);
    assert_eq!(sm.sorted_room_addresses(), vec![ROOM_1, ROOM_2]);
    assert_eq!(sm.first_selection(), Some((ROOM_1, STATE_1, 0)));
}

#[test]
fn unloaded_aggregate_saves_nothing() {
    let mut sm = SuperMetroid::unloaded();
    assert!(sm.get_tileset_data(0).is_none());
    assert!(sm.gfx_with_cre(GFX).is_none());
    assert!(sm.tile_table_with_cre(TILES).is_none());
    assert_eq!(sm.first_selection(), None);
    let remap = sm.save_to_rom().unwrap();
    assert_eq!(remap.palettes.len(), 0);
    assert_eq!(remap.levels.len(), 0);
    assert!(sm.rom.is_empty());
}

#[test]
fn shared_level_must_fit_every_room() {
    let mut rom = fixture(0x200000);
    // Room 2 becomes two screens wide but its state keeps room 1's level data.
    put(&mut rom, ROOM_2 + 4, &[2]);
    put(&mut rom, ROOM_2 + 13, &state(LEVEL_1, 0));
    assert!(matches!(SuperMetroid::load_unheadered_rom(rom), Err(LoadError::InvalidData)));
}

#[test]
fn several_edits_all_read_back() {
    let mut sm = load();
    assert!(sm.set_palette_color(PAL_MIXED, 1, 2, Rgb888 { r: 8, g: 8, b: 8 }));
    assert!(sm.set_palette_color(PAL_ZERO, 7, 15, Rgb888 { r: 248, g: 0, b: 0 }));
    let b = Block { block_number: 1, h_flip: false, v_flip: true, block_type: BlockType::Grapple };
    assert!(sm.set_level_block(LEVEL_1, 3, b, 9));
    assert!(sm.set_level_block(LEVEL_2, 200, b, 10));
    let remap = sm.save_to_rom().unwrap();
    let again = SuperMetroid::load_unheadered_rom(sm.rom.clone()).unwrap();
    let mixed = remap.palette_address(PAL_MIXED);
    let zero = remap.palette_address(PAL_ZERO);
    assert_eq!(again.palette(mixed).unwrap().color(1, 2), Bgr555 { r: 1, g: 1, b: 1 });
    assert_eq!(again.palette(zero).unwrap().color(7, 15), Bgr555 { r: 31, g: 0, b: 0 });
    assert_eq!(again.level(remap.level_address(LEVEL_1)).unwrap().layer1[3], b);
    assert_eq!(again.level(remap.level_address(LEVEL_2)).unwrap().bts[200], 10);
}

#[test]
fn tileset_edit_rewrites_only_its_record() {
    let mut sm = load();
    let before = sm.rom.clone();
    assert!(sm.set_tileset_graphic(3, GFX));
    assert!(sm.set_tileset_palette(3, PAL_MIXED));
    let remap = sm.save_to_rom().unwrap();
    assert_eq!(remap.palettes.len(), 0);
    let record = 0x7E6A2 + 9 * 3;
    for (i, (a, b)) in before.iter().zip(sm.rom.iter()).enumerate() {
        if i < record || i >= record + 9 {
            assert_eq!(a, b, "byte {:#x} changed", i);
        }
    }
    assert_eq!(sm.rom.len(), before.len());
    let again = SuperMetroid::load_unheadered_rom(sm.rom.clone()).unwrap();
    assert_eq!(again.tileset(3).unwrap().palette, PAL_MIXED);
}

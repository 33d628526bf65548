//! The address-keyed aggregate of everything the codec reads from a ROM, and
//! the load and save operations over it.
use vstd::prelude::*;
use crate::address::{u16_at, LOROM_MAX_SIZE};
use crate::address_map::{lemma_to_map_update, AddressMap};
use crate::compression::{decompress_at, decompress_spec};
use crate::gfx::{unpack_4bpp, unpack_spec, Gfx};
use crate::level::{decode_level, lemma_level_decode_bytes, level_bytes, Block, LevelData};
use crate::palette::{bgr_of, parse_palette, parse_palette_spec, Palette, Rgb888, PALETTE_BYTES};
use crate::room::{
    conditions_at, parse_room, parse_state, parse_tileset, state_at, tileset_at, RecordError, Room,
    State, Tileset, STATE_BYTES, TILESET_BYTES,
};
use crate::tile_table::{tile_table_from_bytes, tile_words_spec, TileTable};

verus! {

/// File offset of the cartridge title.
pub const TITLE_PC: usize = 0x7FC0;

/// File offset of the tileset table.
pub const TILESET_TABLE_PC: usize = 0x7E6A2;

/// Entries of the tileset table.
pub const TILESET_COUNT: usize = 29;

/// File offset of the room table: a 16-bit count, then that many bank-$8F
/// room pointers.
pub const ROOM_TABLE_PC: usize = 0x7FE00;

/// File offset of the common graphics.
pub const CRE_GFX_PC: usize = 0x1C8000;

/// File offset of the common tile table.
pub const CRE_TILE_TABLE_PC: usize = 0x1CA09D;

/// Tiles of a tileset's own graphics; the common tiles are numbered after them.
pub const SCE_TILES: usize = 640;

/// Why a ROM could not be loaded.
#[derive(Debug, Clone, Copy, PartialEq, Eq, Structural)]
pub enum LoadError {
    /// The image is too small or too large, or its title is not the game's.
    InvalidHeader,
    /// A record runs past the end of the image.
    OutOfBounds,
    /// A pointer does not point into the image's banks.
    InvalidPointer,
    /// A compressed stream is malformed.
    MalformedStream,
    /// Decompressed data does not have the shape its kind needs.
    InvalidData,
}

/// Why a save could not be done.
#[derive(Debug, Clone, Copy, PartialEq, Eq, Structural)]
pub enum SaveError {
    /// The relocated entities do not fit below the LoROM size limit.
    OutOfSpace,
}

/// An entity together with the bytes it may use at its address and whether it
/// was changed since it was last written.
#[derive(Debug)]
pub struct Stored<T> {
    pub value: T,
    pub size: usize,
    pub edited: bool,
}

/// Whether the image carries the game's title.
pub open spec fn title_ok(rom: Seq<u8>) -> bool {
    &&& rom[0x7FC0] == 0x53
    &&& rom[0x7FC1] == 0x75
    &&& rom[0x7FC2] == 0x70
    &&& rom[0x7FC3] == 0x65
    &&& rom[0x7FC4] == 0x72
    &&& rom[0x7FC5] == 0x20
    &&& rom[0x7FC6] == 0x4D
    &&& rom[0x7FC7] == 0x65
    &&& rom[0x7FC8] == 0x74
    &&& rom[0x7FC9] == 0x72
    &&& rom[0x7FCA] == 0x6F
    &&& rom[0x7FCB] == 0x69
    &&& rom[0x7FCC] == 0x64
}

/// Whether the image has a LoROM size and the game's title.
pub open spec fn header_ok(rom: Seq<u8>) -> bool {
    0x8000 <= rom.len() <= LOROM_MAX_SIZE && title_ok(rom)
}

fn check_header(rom: &Vec<u8>) -> (r: bool)
    ensures
        r == header_ok(rom@),
{
    rom.len() >= 0x8000 && rom.len() <= LOROM_MAX_SIZE && rom[0x7FC0] == 0x53 && rom[0x7FC1]
        == 0x75 && rom[0x7FC2] == 0x70 && rom[0x7FC3] == 0x65 && rom[0x7FC4] == 0x72
        && rom[0x7FC5] == 0x20 && rom[0x7FC6] == 0x4D && rom[0x7FC7] == 0x65 && rom[0x7FC8]
        == 0x74 && rom[0x7FC9] == 0x72 && rom[0x7FCA] == 0x6F && rom[0x7FCB] == 0x69
        && rom[0x7FCC] == 0x64
}

/// What the compressed stream at `a` in `rom` expands to.
pub open spec fn stream_at(rom: Seq<u8>, a: int) -> Option<Seq<u8>> {
    decompress_spec(rom.subrange(a, rom.len() as int))
}

/// Whether the header fields of `room` are the eleven bytes at `a`.
pub open spec fn room_header_at(rom: Seq<u8>, a: int, room: Room) -> bool {
    &&& room.index == rom[a]
    &&& room.area == rom[a + 1]
    &&& room.x == rom[a + 2]
    &&& room.y == rom[a + 3]
    &&& room.width == rom[a + 4]
    &&& room.height == rom[a + 5]
    &&& room.up_scroller == rom[a + 6]
    &&& room.down_scroller == rom[a + 7]
    &&& room.cre_bitset == rom[a + 8]
    &&& room.door_list == u16_at(rom, a + 9)
}

/// The whole ROM image and every entity read from it, keyed by file offset.
pub struct SuperMetroid {
    pub rom: Vec<u8>,
    pub rooms: AddressMap<Room>,
    pub states: AddressMap<Stored<State>>,
    pub tilesets: Vec<Stored<Tileset>>,
    pub palettes: AddressMap<Stored<Palette>>,
    pub graphics: AddressMap<Gfx>,
    pub tile_tables: AddressMap<TileTable>,
    pub levels: AddressMap<Stored<LevelData>>,
}

impl SuperMetroid {
    /// Every map keeps one entry per address.
    pub open spec fn maps_wf(&self) -> bool {
        &&& self.rooms.wf()
        &&& self.states.wf()
        &&& self.palettes.wf()
        &&& self.graphics.wf()
        &&& self.tile_tables.wf()
        &&& self.levels.wf()
    }

    /// Every value has the shape its kind needs.
    pub open spec fn values_wf(&self) -> bool {
        &&& forall|a: usize| #[trigger]
            self.palettes@.contains_key(a) ==> self.palettes@[a].value.wf()
        &&& forall|a: usize| #[trigger]
            self.graphics@.contains_key(a) ==> self.graphics@[a].wf()
        &&& forall|a: usize| #[trigger]
            self.tile_tables@.contains_key(a) ==> self.tile_tables@[a].wf()
        &&& forall|a: usize| #[trigger]
            self.levels@.contains_key(a) ==> self.levels@[a].value.wf()
                && self.levels@[a].value.layer1@.len() <= 0x7FFF
    }

    /// Every address that one entity holds of another is a key of its map.
    pub open spec fn refs_wf(&self) -> bool {
        &&& forall|i: int|
            0 <= i < self.tilesets@.len() ==> {
                let t = #[trigger] self.tilesets@[i].value;
                &&& t.valid()
                &&& self.palettes@.contains_key(t.palette)
                &&& self.graphics@.contains_key(t.graphic)
                &&& self.tile_tables@.contains_key(t.tile_table)
            }
        &&& forall|a: usize| #[trigger]
            self.states@.contains_key(a) ==> {
                let s = self.states@[a].value;
                &&& self.levels@.contains_key(s.level_address)
                &&& s.level_address < LOROM_MAX_SIZE
                &&& s.tileset < self.tilesets@.len()
            }
        &&& forall|a: usize, j: int| #[trigger]
            self.rooms@.contains_key(a) && 0 <= j < self.rooms@[a].state_conditions@.len()
                ==> self.states@.contains_key(
                #[trigger] self.rooms@[a].state_conditions@[j].state_address,
            )
    }

    /// Every stored entity lies inside the image, and the image is within
    /// LoROM reach.
    pub open spec fn placed(&self) -> bool {
        &&& self.rom@.len() <= LOROM_MAX_SIZE
        &&& self.tilesets@.len() == 0 || TILESET_TABLE_PC + TILESET_BYTES * self.tilesets@.len()
            <= self.rom@.len()
        &&& forall|a: usize| #[trigger]
            self.palettes@.contains_key(a) ==> a < self.rom@.len() && a + self.palettes@[a].size
                <= self.rom@.len()
        &&& forall|a: usize| #[trigger]
            self.levels@.contains_key(a) ==> a < self.rom@.len() && a + self.levels@[a].size
                <= self.rom@.len()
        &&& forall|a: usize| #[trigger]
            self.states@.contains_key(a) ==> a + STATE_BYTES <= self.rom@.len()
        &&& forall|a: usize| #[trigger] self.graphics@.contains_key(a) ==> a < self.rom@.len()
        &&& forall|a: usize| #[trigger] self.tile_tables@.contains_key(a) ==> a < self.rom@.len()
        &&& forall|a: usize| #[trigger] self.rooms@.contains_key(a) ==> a < self.rom@.len()
    }

    /// The aggregate's invariant.
    pub open spec fn wf(&self) -> bool {
        &&& self.maps_wf()
        &&& self.values_wf()
        &&& self.refs_wf()
        &&& self.placed()
    }

    /// Every entity that was not edited is what its address in the image
    /// decodes to.
    pub open spec fn matches_rom(&self) -> bool {
        let rom = self.rom@;
        &&& forall|a: usize| #[trigger]
            self.palettes@.contains_key(a) && !self.palettes@[a].edited ==> stream_at(
                rom,
                a as int,
            ) is Some && self.palettes@[a].value.colors@ == parse_palette_spec(
                stream_at(rom, a as int).unwrap(),
            )
        &&& forall|a: usize| #[trigger]
            self.graphics@.contains_key(a) ==> stream_at(rom, a as int) is Some
                && self.graphics@[a].pixels@ == unpack_spec(stream_at(rom, a as int).unwrap())
        &&& forall|a: usize| #[trigger]
            self.tile_tables@.contains_key(a) ==> stream_at(rom, a as int) is Some
                && self.tile_tables@[a].entries@ == tile_words_spec(
                stream_at(rom, a as int).unwrap(),
            )
        &&& forall|a: usize| #[trigger]
            self.states@.contains_key(a) && !self.states@[a].edited ==> state_at(rom, a as int)
                == Some(self.states@[a].value)
        &&& forall|i: int|
            0 <= i < self.tilesets@.len() && !(#[trigger] self.tilesets@[i]).edited ==> tileset_at(
                rom,
                TILESET_TABLE_PC + TILESET_BYTES * i,
            ) == Some(self.tilesets@[i].value)
        &&& forall|a: usize| #[trigger]
            self.levels@.contains_key(a) && !self.levels@[a].edited ==> stream_at(rom, a as int) is Some
                && level_bytes(
                self.levels@[a].value.layer1@,
                self.levels@[a].value.bts@,
                self.levels@[a].value.layer2@,
            ) == stream_at(rom, a as int).unwrap()
        &&& forall|a: usize| #[trigger]
            self.rooms@.contains_key(a) ==> conditions_at(rom, a + 11) == Some(
                self.rooms@[a].state_conditions@,
            ) && room_header_at(rom, a as int, self.rooms@[a])
    }
}


/// Whether no palette, level data, state or tileset of `sm` is marked edited.
pub open spec fn unedited(sm: SuperMetroid) -> bool {
    &&& forall|a: usize| #[trigger] sm.palettes@.contains_key(a) ==> !sm.palettes@[a].edited
    &&& forall|a: usize| #[trigger] sm.levels@.contains_key(a) ==> !sm.levels@[a].edited
    &&& forall|a: usize| #[trigger] sm.states@.contains_key(a) ==> !sm.states@[a].edited
    &&& forall|j: int| 0 <= j < sm.tilesets@.len() ==> !(#[trigger] sm.tilesets@[j]).edited
}

/// The graphics that `gfx_with_cre(addr)` gives.
pub open spec fn gfx_with_cre_spec(sm: SuperMetroid, addr: usize) -> Seq<u8> {
    fit_pixels(sm.graphics@[addr].pixels@, SCE_TILES * 64) + sm.graphics@[CRE_GFX_PC].pixels@
}

/// The stream at `a` expands to a palette buffer.
pub open spec fn palette_stream_ok(rom: Seq<u8>, a: int) -> bool {
    0 <= a <= rom.len() && stream_at(rom, a) is Some && stream_at(rom, a).unwrap().len()
        == PALETTE_BYTES
}

/// The stream at `a` expands to whole graphics tiles.
pub open spec fn graphics_stream_ok(rom: Seq<u8>, a: int) -> bool {
    0 <= a <= rom.len() && stream_at(rom, a) is Some && stream_at(rom, a).unwrap().len() % 32 == 0
}

/// The stream at `a` expands to whole tile-table blocks.
pub open spec fn tile_table_stream_ok(rom: Seq<u8>, a: int) -> bool {
    0 <= a <= rom.len() && stream_at(rom, a) is Some && stream_at(rom, a).unwrap().len() % 8 == 0
}

/// The stream at `a` expands to level data for `n` blocks.
pub open spec fn level_stream_ok(rom: Seq<u8>, a: int, n: int) -> bool {
    0 <= a <= rom.len() && stream_at(rom, a) is Some && crate::level::level_bytes_ok(
        stream_at(rom, a).unwrap(),
        n,
    )
}

/// Tileset record `i` and what it points to decode.
pub open spec fn tileset_sound(rom: Seq<u8>, i: int) -> bool {
    let p = TILESET_TABLE_PC + TILESET_BYTES * i;
    &&& p + TILESET_BYTES <= rom.len()
    &&& tileset_at(rom, p) is Some
    &&& palette_stream_ok(rom, tileset_at(rom, p).unwrap().palette as int)
    &&& graphics_stream_ok(rom, tileset_at(rom, p).unwrap().graphic as int)
    &&& tile_table_stream_ok(rom, tileset_at(rom, p).unwrap().tile_table as int)
}

/// The state at `s` decodes, names one of the tilesets, and its level data
/// decodes for `n` blocks.
pub open spec fn state_sound(rom: Seq<u8>, s: int, n: int) -> bool {
    &&& 0 <= s
    &&& s + STATE_BYTES <= rom.len()
    &&& state_at(rom, s) is Some
    &&& state_at(rom, s).unwrap().tileset < TILESET_COUNT
    &&& level_stream_ok(rom, state_at(rom, s).unwrap().level_address as int, n)
}

/// Blocks of the room whose header is at `r`.
pub open spec fn room_blocks(rom: Seq<u8>, r: int) -> int {
    rom[r + 4] * 16 * rom[r + 5] * 16
}

/// The room at `r` decodes, and so does every state it lists.
pub open spec fn room_sound(rom: Seq<u8>, r: int) -> bool {
    &&& 0 <= r
    &&& r + 11 <= rom.len()
    &&& conditions_at(rom, r + 11) is Some
    &&& forall|i: int|
        0 <= i < conditions_at(rom, r + 11).unwrap().len() ==> state_sound(
            rom,
            (#[trigger] conditions_at(rom, r + 11).unwrap()[i]).state_address as int,
            room_blocks(rom, r),
        )
}

/// An image whose header is right and everything a load reaches decodes:
/// the common graphics and tile table, the tilesets and what they point to,
/// the room table, its rooms, their states and the level data of each state
/// for each room that lists it.
pub open spec fn rom_sound(rom: Seq<u8>) -> bool {
    &&& header_ok(rom)
    &&& graphics_stream_ok(rom, CRE_GFX_PC as int)
    &&& tile_table_stream_ok(rom, CRE_TILE_TABLE_PC as int)
    &&& forall|i: int| 0 <= i < TILESET_COUNT ==> #[trigger] tileset_sound(rom, i)
    &&& ROOM_TABLE_PC + 2 <= rom.len()
    &&& ROOM_TABLE_PC + 2 + 2 * u16_at(rom, ROOM_TABLE_PC as int) <= rom.len()
    &&& forall|j: int|
        0 <= j < u16_at(rom, ROOM_TABLE_PC as int) ==> u16_at(rom, ROOM_TABLE_PC + 2 + 2 * j)
            >= 0x8000 && room_sound(rom, #[trigger] room_pointer_pc(rom, j))
}

/// Palettes read from `rom`, unedited, each inside the image.
pub open spec fn palettes_read(rom: Seq<u8>, m: AddressMap<Stored<Palette>>) -> bool {
    &&& m.wf()
    &&& forall|a: usize| #[trigger]
        m@.contains_key(a) ==> {
            &&& m@[a].value.wf()
            &&& !m@[a].edited
            &&& a < rom.len()
            &&& a + m@[a].size <= rom.len()
            &&& stream_at(rom, a as int) is Some
            &&& m@[a].value.colors@ == parse_palette_spec(stream_at(rom, a as int).unwrap())
        }
}

/// Graphics read from `rom`, each inside the image.
pub open spec fn graphics_read(rom: Seq<u8>, m: AddressMap<Gfx>) -> bool {
    &&& m.wf()
    &&& forall|a: usize| #[trigger]
        m@.contains_key(a) ==> {
            &&& m@[a].wf()
            &&& a < rom.len()
            &&& stream_at(rom, a as int) is Some
            &&& m@[a].pixels@ == unpack_spec(stream_at(rom, a as int).unwrap())
        }
}

/// Tile tables read from `rom`, each inside the image.
pub open spec fn tile_tables_read(rom: Seq<u8>, m: AddressMap<TileTable>) -> bool {
    &&& m.wf()
    &&& forall|a: usize| #[trigger]
        m@.contains_key(a) ==> {
            &&& m@[a].wf()
            &&& a < rom.len()
            &&& stream_at(rom, a as int) is Some
            &&& m@[a].entries@ == tile_words_spec(stream_at(rom, a as int).unwrap())
        }
}

/// Level data read from `rom`, unedited, each inside the image.
pub open spec fn levels_read(rom: Seq<u8>, m: AddressMap<Stored<LevelData>>) -> bool {
    &&& m.wf()
    &&& forall|a: usize| #[trigger]
        m@.contains_key(a) ==> {
            &&& m@[a].value.wf()
            &&& m@[a].value.layer1@.len() <= 0x7FFF
            &&& !m@[a].edited
            &&& a < rom.len()
            &&& a + m@[a].size <= rom.len()
            &&& stream_at(rom, a as int) is Some
            &&& level_bytes(m@[a].value.layer1@, m@[a].value.bts@, m@[a].value.layer2@)
                == stream_at(rom, a as int).unwrap()
        }
}

/// `new` holds every key of `old`, with the same value.
pub open spec fn grows<V>(old: Map<usize, V>, new: Map<usize, V>) -> bool {
    forall|k: usize| #[trigger] old.contains_key(k) ==> new.contains_key(k) && new[k] == old[k]
}

fn load_palette(rom: &Vec<u8>, m: &mut AddressMap<Stored<Palette>>, a: usize) -> (r: Result<(), LoadError>)
    requires
        palettes_read(rom@, *old(m)),
    ensures
        palettes_read(rom@, *final(m)),
        grows(old(m)@, final(m)@),
        r.is_ok() ==> final(m)@.contains_key(a),
        forall|k: usize| #[trigger] final(m)@.contains_key(k) ==> old(m)@.contains_key(k) || k == a,
        palette_stream_ok(rom@, a as int) ==> r.is_ok(),
        r != Err::<(), LoadError>(LoadError::InvalidHeader),
{
    if m.contains_key(a) {
        return Ok(());
    }
    match decompress_at(rom.as_slice(), a) {
        Err(_) => Err(LoadError::MalformedStream),
        Ok((raw, end)) => match parse_palette(raw.as_slice()) {
            Err(_) => Err(LoadError::InvalidData),
            Ok(value) => {
                m.insert(a, Stored { value, size: end - a, edited: false });
                Ok(())
            },
        },
    }
}

fn load_graphics(rom: &Vec<u8>, m: &mut AddressMap<Gfx>, a: usize) -> (r: Result<(), LoadError>)
    requires
        graphics_read(rom@, *old(m)),
    ensures
        graphics_read(rom@, *final(m)),
        grows(old(m)@, final(m)@),
        r.is_ok() ==> final(m)@.contains_key(a),
        forall|k: usize| #[trigger] final(m)@.contains_key(k) ==> old(m)@.contains_key(k) || k == a,
        graphics_stream_ok(rom@, a as int) ==> r.is_ok(),
        r != Err::<(), LoadError>(LoadError::InvalidHeader),
{
    if m.contains_key(a) {
        return Ok(());
    }
    match decompress_at(rom.as_slice(), a) {
        Err(_) => Err(LoadError::MalformedStream),
        Ok((raw, _)) => match unpack_4bpp(raw.as_slice()) {
            Err(_) => Err(LoadError::InvalidData),
            Ok(value) => {
                m.insert(a, value);
                Ok(())
            },
        },
    }
}

fn load_tile_table(rom: &Vec<u8>, m: &mut AddressMap<TileTable>, a: usize) -> (r: Result<(), LoadError>)
    requires
        tile_tables_read(rom@, *old(m)),
    ensures
        tile_tables_read(rom@, *final(m)),
        grows(old(m)@, final(m)@),
        r.is_ok() ==> final(m)@.contains_key(a),
        forall|k: usize| #[trigger] final(m)@.contains_key(k) ==> old(m)@.contains_key(k) || k == a,
        tile_table_stream_ok(rom@, a as int) ==> r.is_ok(),
        r != Err::<(), LoadError>(LoadError::InvalidHeader),
{
    if m.contains_key(a) {
        return Ok(());
    }
    match decompress_at(rom.as_slice(), a) {
        Err(_) => Err(LoadError::MalformedStream),
        Ok((raw, _)) => match tile_table_from_bytes(raw.as_slice()) {
            Err(_) => Err(LoadError::InvalidData),
            Ok(value) => {
                m.insert(a, value);
                Ok(())
            },
        },
    }
}

fn load_level(rom: &Vec<u8>, m: &mut AddressMap<Stored<LevelData>>, a: usize, blocks: usize) -> (r:
    Result<(), LoadError>)
    requires
        levels_read(rom@, *old(m)),
    ensures
        levels_read(rom@, *final(m)),
        grows(old(m)@, final(m)@),
        r.is_ok() ==> final(m)@.contains_key(a),
        forall|k: usize| #[trigger] final(m)@.contains_key(k) ==> old(m)@.contains_key(k) || k == a,
        level_stream_ok(rom@, a as int, blocks as int) ==> r.is_ok(),
        r != Err::<(), LoadError>(LoadError::InvalidHeader),
{
    if m.contains_key(a) {
        return Ok(());
    }
    match decompress_at(rom.as_slice(), a) {
        Err(_) => Err(LoadError::MalformedStream),
        Ok((raw, end)) => match LevelData::from_bytes(raw.as_slice(), blocks) {
            Err(_) => Err(LoadError::InvalidData),
            Ok(value) => {
                proof {
                    lemma_level_decode_bytes(raw@, blocks as int);
                    let d = decode_level(raw@);
                    assert(value.layer1@ =~= d.0);
                    assert(value.bts@ =~= d.1);
                    assert(value.layer2@ =~= d.2);
                }
                m.insert(a, Stored { value, size: end - a, edited: false });
                Ok(())
            },
        },
    }
}

fn record_error(e: RecordError) -> (r: LoadError)
    ensures
        r != LoadError::InvalidHeader,
        e == RecordError::OutOfBounds ==> r == LoadError::OutOfBounds,
        e == RecordError::InvalidPointer ==> r == LoadError::InvalidPointer,
{
    match e {
        RecordError::OutOfBounds => LoadError::OutOfBounds,
        RecordError::InvalidPointer => LoadError::InvalidPointer,
    }
}


/// States read from `rom`, unedited, each inside the image, each pointing at
/// loaded level data and at one of `tilesets` tilesets.
pub open spec fn states_read(
    rom: Seq<u8>,
    m: AddressMap<Stored<State>>,
    levels: Map<usize, Stored<LevelData>>,
    tilesets: nat,
) -> bool {
    &&& m.wf()
    &&& forall|a: usize| #[trigger]
        m@.contains_key(a) ==> {
            &&& !m@[a].edited
            &&& a + STATE_BYTES <= rom.len()
            &&& state_at(rom, a as int) == Some(m@[a].value)
            &&& levels.contains_key(m@[a].value.level_address)
            &&& m@[a].value.level_address < LOROM_MAX_SIZE
            &&& m@[a].value.tileset < tilesets
        }
}

/// Rooms read from `rom`, each inside the image, each listing loaded states.
pub open spec fn rooms_read(rom: Seq<u8>, m: AddressMap<Room>, states: Map<usize, Stored<State>>) -> bool {
    &&& m.wf()
    &&& forall|a: usize| #[trigger]
        m@.contains_key(a) ==> a < rom.len() && conditions_at(rom, a + 11) == Some(
            m@[a].state_conditions@,
        ) && room_header_at(rom, a as int, m@[a])
    &&& forall|a: usize, j: int| #[trigger]
        m@.contains_key(a) && 0 <= j < m@[a].state_conditions@.len() ==> states.contains_key(
            #[trigger] m@[a].state_conditions@[j].state_address,
        )
}

/// The file offset of room `j` of the room table.
pub open spec fn room_pointer_pc(rom: Seq<u8>, j: int) -> int {
    crate::room::ROOM_BANK_PC + u16_at(rom, ROOM_TABLE_PC + 2 + 2 * j) - 0x8000
}

/// Whether the room table lists a room at `k`.
pub open spec fn room_table_has(rom: Seq<u8>, k: usize) -> bool {
    exists|j: int| 0 <= j < u16_at(rom, ROOM_TABLE_PC as int) && #[trigger] room_pointer_pc(rom, j) == k
}

/// Whether some room of `rooms` lists a state at `s`.
pub open spec fn listed_state(rooms: Map<usize, Room>, s: usize) -> bool {
    exists|r: usize, i: int|
        rooms.contains_key(r) && 0 <= i < rooms[r].state_conditions@.len() && (
        #[trigger] rooms[r].state_conditions@[i]).state_address == s
}

/// Whether some state of `states` uses the level data at `l`.
pub open spec fn used_level(states: Map<usize, Stored<State>>, l: usize) -> bool {
    exists|s: usize| #[trigger] states.contains_key(s) && states[s].value.level_address == l
}

/// Whether some tileset uses the palette at `k`.
pub open spec fn used_palette(tilesets: Seq<Stored<Tileset>>, k: usize) -> bool {
    exists|i: int| 0 <= i < tilesets.len() && (#[trigger] tilesets[i]).value.palette == k
}

/// Whether some tileset uses the graphics at `k`.
pub open spec fn used_graphic(tilesets: Seq<Stored<Tileset>>, k: usize) -> bool {
    exists|i: int| 0 <= i < tilesets.len() && (#[trigger] tilesets[i]).value.graphic == k
}

/// Whether some tileset uses the tile table at `k`.
pub open spec fn used_tile_table(tilesets: Seq<Stored<Tileset>>, k: usize) -> bool {
    exists|i: int| 0 <= i < tilesets.len() && (#[trigger] tilesets[i]).value.tile_table == k
}

/// The addresses that a load of `rom` holds: the rooms of the room table,
/// the states they list, the level data those use, and the palettes,
/// graphics and tile tables of the tilesets, with the common ones.
pub open spec fn loaded_domains(sm: SuperMetroid, rom: Seq<u8>) -> bool {
    &&& forall|k: usize| #[trigger] sm.rooms@.contains_key(k) <==> room_table_has(rom, k)
    &&& forall|k: usize| #[trigger] sm.states@.contains_key(k) <==> listed_state(sm.rooms@, k)
    &&& forall|k: usize| #[trigger] sm.levels@.contains_key(k) <==> used_level(sm.states@, k)
    &&& forall|k: usize| #[trigger] sm.palettes@.contains_key(k) <==> used_palette(sm.tilesets@, k)
    &&& forall|k: usize| #[trigger]
        sm.graphics@.contains_key(k) <==> k == CRE_GFX_PC || used_graphic(sm.tilesets@, k)
    &&& forall|k: usize| #[trigger]
        sm.tile_tables@.contains_key(k) <==> k == CRE_TILE_TABLE_PC || used_tile_table(
            sm.tilesets@,
            k,
        )
}

/// Every state that a room lists uses level data with one block per block
/// position of that room.
pub open spec fn levels_fit(
    rom: Seq<u8>,
    rooms: Map<usize, Room>,
    states: Map<usize, Stored<State>>,
    levels: Map<usize, Stored<LevelData>>,
) -> bool {
    forall|r: usize, i: int|
        rooms.contains_key(r) && 0 <= i < rooms[r].state_conditions@.len() ==> levels[states[(
        #[trigger] rooms[r].state_conditions@[i]).state_address].value.level_address].value.layer1@.len()
            == room_blocks(rom, r as int)
}

/// Reads the room at `pc`, and every state and level data it lists that is
/// not loaded yet.
fn load_room(
    rom: &Vec<u8>,
    rooms: &mut AddressMap<Room>,
    states: &mut AddressMap<Stored<State>>,
    levels: &mut AddressMap<Stored<LevelData>>,
    pc: usize,
) -> (r: Result<(), LoadError>)
    requires
        levels_read(rom@, *old(levels)),
        states_read(rom@, *old(states), old(levels)@, TILESET_COUNT as nat),
        rooms_read(rom@, *old(rooms), old(states)@),
        levels_fit(rom@, old(rooms)@, old(states)@, old(levels)@),
    ensures
        r.is_ok() ==> levels_fit(rom@, final(rooms)@, final(states)@, final(levels)@),
        levels_read(rom@, *final(levels)),
        states_read(rom@, *final(states), final(levels)@, TILESET_COUNT as nat),
        rooms_read(rom@, *final(rooms), final(states)@),
        grows(old(rooms)@, final(rooms)@),
        r.is_ok() ==> final(rooms)@.contains_key(pc),
        r != Err::<(), LoadError>(LoadError::InvalidHeader),
        room_sound(rom@, pc as int) ==> r.is_ok(),
        r.is_ok() ==> forall|k: usize| #[trigger]
            final(rooms)@.contains_key(k) ==> old(rooms)@.contains_key(k) || k == pc,
        r.is_ok() && (forall|k: usize| #[trigger]
            old(states)@.contains_key(k) ==> listed_state(old(rooms)@, k)) ==> forall|k: usize|
            #[trigger] final(states)@.contains_key(k) ==> listed_state(final(rooms)@, k),
        r.is_ok() && (forall|k: usize| #[trigger]
            old(levels)@.contains_key(k) ==> used_level(old(states)@, k)) ==> forall|k: usize|
            #[trigger] final(levels)@.contains_key(k) ==> used_level(final(states)@, k),
{
    if rooms.contains_key(pc) {
        return Ok(());
    }
    let room = match parse_room(rom.as_slice(), pc) {
        Ok(room) => room,
        Err(e) => {
            return Err(record_error(e));
        },
    };
    let blocks = room.block_count();
    let ghost sound = room_sound(rom@, pc as int);
    proof {
        assert(blocks == room_blocks(rom@, pc as int));
    }
    let ghost old_listed = forall|k: usize| #[trigger]
        old(states)@.contains_key(k) ==> listed_state(old(rooms)@, k);
    let ghost old_used = forall|k: usize| #[trigger]
        old(levels)@.contains_key(k) ==> used_level(old(states)@, k);
    let mut j: usize = 0;
    while j < room.state_conditions.len()
        invariant
            j <= room.state_conditions@.len(),
            levels_read(rom@, *levels),
            states_read(rom@, *states, levels@, TILESET_COUNT as nat),
            rooms_read(rom@, *rooms, states@),
            rooms@ == old(rooms)@,
            !rooms@.contains_key(pc),
            forall|k: int| 0 <= k < j ==> states@.contains_key(
                #[trigger] room.state_conditions@[k].state_address,
            ),
            old_listed == (forall|k: usize| #[trigger]
                old(states)@.contains_key(k) ==> listed_state(old(rooms)@, k)),
            old_used == (forall|k: usize| #[trigger]
                old(levels)@.contains_key(k) ==> used_level(old(states)@, k)),
            old_listed ==> forall|k: usize| #[trigger]
                states@.contains_key(k) ==> listed_state(rooms@, k) || exists|i: int|
                    0 <= i < j && (#[trigger] room.state_conditions@[i]).state_address == k,
            old_used ==> forall|k: usize| #[trigger]
                levels@.contains_key(k) ==> used_level(states@, k),
            grows(old(states)@, states@),
            sound == room_sound(rom@, pc as int),
            Some(room.state_conditions@) == conditions_at(rom@, pc + 11),
            blocks == room_blocks(rom@, pc as int),
            grows(old(levels)@, levels@),
            levels_fit(rom@, rooms@, states@, levels@),
            forall|k: int|
                0 <= k < j ==> levels@[states@[(#[trigger] room.state_conditions@[k]).state_address].value.level_address].value.layer1@.len()
                    == blocks,
        decreases room.state_conditions@.len() - j,
    {
        let sa = room.state_conditions[j].state_address;
        proof {
            if sound {
                let cs = conditions_at(rom@, pc + 11).unwrap();
                assert(cs[j as int] == room.state_conditions@[j as int]);
                assert(state_sound(rom@, cs[j as int].state_address as int, room_blocks(rom@, pc as int)));
            }
        }
        if !states.contains_key(sa) {
            let st = match parse_state(rom.as_slice(), sa) {
                Ok(st) => st,
                Err(e) => {
                    return Err(record_error(e));
                },
            };
            if st.tileset as usize >= TILESET_COUNT {
                return Err(LoadError::InvalidData);
            }
            let ghost lv0 = levels@;
            load_level(rom, levels, st.level_address, blocks)?;
            let ghost st0 = states@;
            states.insert(sa, Stored { value: st, size: STATE_BYTES, edited: false });
            assert(grows(st0, states@));
            proof {
                if old_used {
                    assert forall|k: usize| #[trigger] levels@.contains_key(k) implies used_level(states@, k) by {
                        if k == st.level_address {
                            assert(states@.contains_key(sa) && states@[sa].value.level_address == k);
                        } else {
                            assert(lv0.contains_key(k));
                            assert(used_level(st0, k));
                            let s0 = choose|s0: usize| #[trigger] st0.contains_key(s0) && st0[s0].value.level_address == k;
                            assert(states@.contains_key(s0) && states@[s0].value.level_address == k);
                        }
                    }
                }
                if old_listed {
                    assert forall|k: usize| #[trigger] states@.contains_key(k) implies listed_state(rooms@, k) || exists|i: int|
                        0 <= i < j + 1 && (#[trigger] room.state_conditions@[i]).state_address == k by {
                        if k == sa {
                            assert(room.state_conditions@[j as int].state_address == k);
                        } else {
                            assert(st0.contains_key(k));
                        }
                    }
                }
                assert(grows(old(states)@, states@));
            }
        }
        let la = states.get(sa).unwrap().value.level_address;
        let n = levels.get(la).unwrap().value.layer1.len();
        if n != blocks {
            proof {
                if sound {
                    let v = levels@[la].value;
                    let st = state_at(rom@, sa as int).unwrap();
                    assert(states@[sa].value == st);
                    crate::level::lemma_level_bytes_decode(v.layer1@, v.bts@, v.layer2@);
                    assert(level_stream_ok(rom@, la as int, blocks as int));
                }
            }
            return Err(LoadError::InvalidData);
        }
        j += 1;
    }
    let ghost r0 = rooms@;
    let ghost conds = room.state_conditions@;
    rooms.insert(pc, room);
    proof {
        if old_listed {
            assert forall|k: usize| #[trigger] states@.contains_key(k) implies listed_state(rooms@, k) by {
                if listed_state(r0, k) {
                    let (r, i) = choose|r: usize, i: int|
                        r0.contains_key(r) && 0 <= i < r0[r].state_conditions@.len() && (
                        #[trigger] r0[r].state_conditions@[i]).state_address == k;
                    assert(rooms@.contains_key(r) && rooms@[r] == r0[r]);
                    assert(rooms@[r].state_conditions@[i].state_address == k);
                } else {
                    let i = choose|i: int| 0 <= i < conds.len() && (#[trigger] conds[i]).state_address == k;
                    assert(rooms@[pc].state_conditions@[i].state_address == k);
                }
            }
        }
        if old_used {
            assert forall|k: usize| #[trigger] levels@.contains_key(k) implies used_level(states@, k) by {}
        }
    }
    Ok(())
}

/// Reads tileset `i` of the tileset table and what it points to.
fn load_tileset(
    rom: &Vec<u8>,
    i: usize,
    palettes: &mut AddressMap<Stored<Palette>>,
    graphics: &mut AddressMap<Gfx>,
    tile_tables: &mut AddressMap<TileTable>,
) -> (r: Result<Tileset, LoadError>)
    requires
        i < TILESET_COUNT,
        palettes_read(rom@, *old(palettes)),
        graphics_read(rom@, *old(graphics)),
        tile_tables_read(rom@, *old(tile_tables)),
    ensures
        palettes_read(rom@, *final(palettes)),
        graphics_read(rom@, *final(graphics)),
        tile_tables_read(rom@, *final(tile_tables)),
        grows(old(palettes)@, final(palettes)@),
        grows(old(graphics)@, final(graphics)@),
        grows(old(tile_tables)@, final(tile_tables)@),
        r != Err::<Tileset, LoadError>(LoadError::InvalidHeader),
        tileset_sound(rom@, i as int) ==> r.is_ok(),
        r.is_ok() ==> {
            let t = r.unwrap();
            &&& t.valid()
            &&& tileset_at(rom@, TILESET_TABLE_PC + TILESET_BYTES * i) == Some(t)
            &&& TILESET_TABLE_PC + TILESET_BYTES * i + TILESET_BYTES <= rom@.len()
            &&& final(palettes)@.contains_key(t.palette)
            &&& final(graphics)@.contains_key(t.graphic)
            &&& final(tile_tables)@.contains_key(t.tile_table)
            &&& forall|k: usize| #[trigger]
                final(palettes)@.contains_key(k) ==> old(palettes)@.contains_key(k) || k == t.palette
            &&& forall|k: usize| #[trigger]
                final(graphics)@.contains_key(k) ==> old(graphics)@.contains_key(k) || k == t.graphic
            &&& forall|k: usize| #[trigger]
                final(tile_tables)@.contains_key(k) ==> old(tile_tables)@.contains_key(k) || k
                    == t.tile_table
        },
{
    let t = match parse_tileset(rom.as_slice(), TILESET_TABLE_PC + TILESET_BYTES * i) {
        Ok(t) => t,
        Err(e) => {
            return Err(record_error(e));
        },
    };
    proof {
        let b = rom@;
        let p = TILESET_TABLE_PC + TILESET_BYTES * i;
        assert(crate::room::long_pointer_at(b, p as int) is Some);
    }
    load_palette(rom, palettes, t.palette)?;
    load_graphics(rom, graphics, t.graphic)?;
    load_tile_table(rom, tile_tables, t.tile_table)?;
    Ok(t)
}

impl SuperMetroid {
    /// Reads a ROM image whose copier header, if it had one, was removed: the
    /// tileset table with its palettes, graphics and tile tables, the common
    /// graphics and tile table, and every room of the room table with its
    /// states and level data. Shared addresses are read once. A wrong size or
    /// title gives `InvalidHeader`; an image in which everything reached
    /// decodes loads; a loaded aggregate agrees with the image and holds
    /// exactly the addresses the image leads to.
    pub fn load_unheadered_rom(rom: Vec<u8>) -> (r: Result<SuperMetroid, LoadError>)
        ensures
            r == Err::<SuperMetroid, LoadError>(LoadError::InvalidHeader) <==> !header_ok(rom@),
            rom_sound(rom@) ==> r.is_ok(),
            r.is_ok() ==> {
                let sm = r.unwrap();
                &&& sm.wf()
                &&& sm.matches_rom()
                &&& unedited(sm)
                &&& sm.rom@ == rom@
                &&& sm.tilesets@.len() == TILESET_COUNT
                &&& loaded_domains(sm, rom@)
                &&& levels_fit(rom@, sm.rooms@, sm.states@, sm.levels@)
                &&& forall|j: int|
                    0 <= j < u16_at(rom@, ROOM_TABLE_PC as int) ==> sm.rooms@.contains_key(
                        #[trigger] room_pointer_pc(rom@, j) as usize,
                    )
            },
    {
        if !check_header(&rom) {
            return Err(LoadError::InvalidHeader);
        }
        let ghost sound = rom_sound(rom@);
        let mut graphics: AddressMap<Gfx> = AddressMap::new();
        let mut tile_tables: AddressMap<TileTable> = AddressMap::new();
        let mut palettes: AddressMap<Stored<Palette>> = AddressMap::new();
        load_graphics(&rom, &mut graphics, CRE_GFX_PC)?;
        load_tile_table(&rom, &mut tile_tables, CRE_TILE_TABLE_PC)?;
        let mut tilesets: Vec<Stored<Tileset>> = Vec::new();
        let mut i: usize = 0;
        while i < TILESET_COUNT
            invariant
                header_ok(rom@),
                i <= TILESET_COUNT,
                tilesets@.len() == i,
                palettes_read(rom@, palettes),
                graphics_read(rom@, graphics),
                tile_tables_read(rom@, tile_tables),
                graphics@.contains_key(CRE_GFX_PC),
                tile_tables@.contains_key(CRE_TILE_TABLE_PC),
                forall|k: int|
                    0 <= k < i ==> {
                        let t = #[trigger] tilesets@[k];
                        &&& !t.edited
                        &&& t.value.valid()
                        &&& tileset_at(rom@, TILESET_TABLE_PC + TILESET_BYTES * k) == Some(t.value)
                        &&& palettes@.contains_key(t.value.palette)
                        &&& graphics@.contains_key(t.value.graphic)
                        &&& tile_tables@.contains_key(t.value.tile_table)
                    },
                TILESET_TABLE_PC + TILESET_BYTES * i <= rom@.len(),
                sound == rom_sound(rom@),
                forall|k: usize| #[trigger] palettes@.contains_key(k) ==> used_palette(tilesets@, k),
                forall|k: usize| #[trigger]
                    graphics@.contains_key(k) ==> k == CRE_GFX_PC || used_graphic(tilesets@, k),
                forall|k: usize| #[trigger]
                    tile_tables@.contains_key(k) ==> k == CRE_TILE_TABLE_PC || used_tile_table(
                        tilesets@,
                        k,
                    ),
            decreases TILESET_COUNT - i,
        {
            proof {
                if sound {
                    assert(tileset_sound(rom@, i as int));
                }
            }
            let t = load_tileset(&rom, i, &mut palettes, &mut graphics, &mut tile_tables)?;
            let ghost ts0 = tilesets@;
            tilesets.push(Stored { value: t, size: TILESET_BYTES, edited: false });
            assert forall|k: usize| #[trigger] palettes@.contains_key(k) implies used_palette(tilesets@, k) by {
                if k == t.palette {
                    assert(tilesets@[i as int].value.palette == k);
                } else {
                    let q = choose|q: int| 0 <= q < ts0.len() && (#[trigger] ts0[q]).value.palette == k;
                    assert(tilesets@[q] == ts0[q]);
                }
            }
            assert forall|k: usize| #[trigger] graphics@.contains_key(k) implies k == CRE_GFX_PC || used_graphic(tilesets@, k) by {
                if k == t.graphic {
                    assert(tilesets@[i as int].value.graphic == k);
                } else if k != CRE_GFX_PC {
                    let q = choose|q: int| 0 <= q < ts0.len() && (#[trigger] ts0[q]).value.graphic == k;
                    assert(tilesets@[q] == ts0[q]);
                }
            }
            assert forall|k: usize| #[trigger] tile_tables@.contains_key(k) implies k == CRE_TILE_TABLE_PC || used_tile_table(tilesets@, k) by {
                if k == t.tile_table {
                    assert(tilesets@[i as int].value.tile_table == k);
                } else if k != CRE_TILE_TABLE_PC {
                    let q = choose|q: int| 0 <= q < ts0.len() && (#[trigger] ts0[q]).value.tile_table == k;
                    assert(tilesets@[q] == ts0[q]);
                }
            }
            assert forall|k: int| 0 <= k < i + 1 implies {
                let t = #[trigger] tilesets@[k];
                &&& !t.edited
                &&& t.value.valid()
                &&& tileset_at(rom@, TILESET_TABLE_PC + TILESET_BYTES * k) == Some(t.value)
                &&& palettes@.contains_key(t.value.palette)
                &&& graphics@.contains_key(t.value.graphic)
                &&& tile_tables@.contains_key(t.value.tile_table)
            } by {
                if k < i {
                    assert(tilesets@[k] == ts0[k]);
                }
            }
            i += 1;
        }
        let mut rooms: AddressMap<Room> = AddressMap::new();
        let mut states: AddressMap<Stored<State>> = AddressMap::new();
        let mut levels: AddressMap<Stored<LevelData>> = AddressMap::new();
        let count = match crate::address::read_u16(rom.as_slice(), ROOM_TABLE_PC) {
            Ok(c) => c as usize,
            Err(_) => {
                return Err(LoadError::OutOfBounds);
            },
        };
        let mut j: usize = 0;
        while j < count
            invariant
                header_ok(rom@),
                count == u16_at(rom@, ROOM_TABLE_PC as int),
                j <= count,
                sound == rom_sound(rom@),
                levels_read(rom@, levels),
                states_read(rom@, states, levels@, TILESET_COUNT as nat),
                rooms_read(rom@, rooms, states@),
                forall|k: int| 0 <= k < j ==> rooms@.contains_key(
                    #[trigger] room_pointer_pc(rom@, k) as usize,
                ),
                forall|k: usize| #[trigger]
                    rooms@.contains_key(k) ==> exists|q: int| 0 <= q < j && #[trigger] room_pointer_pc(rom@, q) == k,
                forall|k: usize| #[trigger] states@.contains_key(k) ==> listed_state(rooms@, k),
                forall|k: usize| #[trigger] levels@.contains_key(k) ==> used_level(states@, k),
                levels_fit(rom@, rooms@, states@, levels@),
            decreases count - j,
        {
            let ptr = match crate::address::read_u16(rom.as_slice(), ROOM_TABLE_PC + 2 + 2 * j) {
                Ok(p) => p as usize,
                Err(_) => {
                    return Err(LoadError::OutOfBounds);
                },
            };
            proof {
                if sound {
                    assert(room_sound(rom@, room_pointer_pc(rom@, j as int)));
                    assert(u16_at(rom@, ROOM_TABLE_PC + 2 + 2 * j) >= 0x8000);
                }
            }
            if ptr < 0x8000 {
                return Err(LoadError::InvalidPointer);
            }
            let ghost r0 = rooms@;
            let pc = crate::room::ROOM_BANK_PC + ptr - 0x8000;
            proof {
                if sound {
                    assert(room_sound(rom@, room_pointer_pc(rom@, j as int)));
                }
            }
            load_room(&rom, &mut rooms, &mut states, &mut levels, pc)?;
            assert(grows(r0, rooms@));
            proof {
                assert(room_pointer_pc(rom@, j as int) == pc);
                assert forall|k: usize| #[trigger] rooms@.contains_key(k) implies exists|q: int|
                    0 <= q < j + 1 && #[trigger] room_pointer_pc(rom@, q) == k by {
                    if k == pc {
                        assert(room_pointer_pc(rom@, j as int) == k);
                    } else {
                        assert(r0.contains_key(k));
                    }
                }
            }
            j += 1;
        }
        let sm = SuperMetroid { rom, rooms, states, tilesets, palettes, graphics, tile_tables, levels };
        proof {
            assert forall|k: usize| #[trigger] sm.rooms@.contains_key(k) <==> room_table_has(sm.rom@, k) by {
                if room_table_has(sm.rom@, k) {
                    let q = choose|q: int| 0 <= q < u16_at(sm.rom@, ROOM_TABLE_PC as int) && #[trigger] room_pointer_pc(sm.rom@, q) == k;
                    assert(sm.rooms@.contains_key(room_pointer_pc(sm.rom@, q) as usize));
                }
            }
            assert forall|k: usize| #[trigger] sm.states@.contains_key(k) <==> listed_state(sm.rooms@, k) by {
                if listed_state(sm.rooms@, k) {
                    let (r, i) = choose|r: usize, i: int|
                        sm.rooms@.contains_key(r) && 0 <= i < sm.rooms@[r].state_conditions@.len() && (
                        #[trigger] sm.rooms@[r].state_conditions@[i]).state_address == k;
                    assert(sm.states@.contains_key(sm.rooms@[r].state_conditions@[i].state_address));
                }
            }
            assert forall|k: usize| #[trigger] sm.levels@.contains_key(k) <==> used_level(sm.states@, k) by {
                if used_level(sm.states@, k) {
                    let s0 = choose|s0: usize| #[trigger] sm.states@.contains_key(s0) && sm.states@[s0].value.level_address == k;
                }
            }
            assert forall|k: usize| #[trigger] sm.palettes@.contains_key(k) <==> used_palette(sm.tilesets@, k) by {
                if used_palette(sm.tilesets@, k) {
                    let q = choose|q: int| 0 <= q < sm.tilesets@.len() && (#[trigger] sm.tilesets@[q]).value.palette == k;
                }
            }
            assert forall|k: usize| #[trigger] sm.graphics@.contains_key(k) <==> k == CRE_GFX_PC || used_graphic(sm.tilesets@, k) by {
                if used_graphic(sm.tilesets@, k) {
                    let q = choose|q: int| 0 <= q < sm.tilesets@.len() && (#[trigger] sm.tilesets@[q]).value.graphic == k;
                }
            }
            assert forall|k: usize| #[trigger] sm.tile_tables@.contains_key(k) <==> k == CRE_TILE_TABLE_PC || used_tile_table(sm.tilesets@, k) by {
                if used_tile_table(sm.tilesets@, k) {
                    let q = choose|q: int| 0 <= q < sm.tilesets@.len() && (#[trigger] sm.tilesets@[q]).value.tile_table == k;
                }
            }
        }
        Ok(sm)
    }
}


/// `pixels` cut or padded with zeros to `n` pixels.
pub open spec fn fit_pixels(pixels: Seq<u8>, n: int) -> Seq<u8> {
    Seq::new(n as nat, |k: int| if k < pixels.len() { pixels[k] } else { 0u8 })
}

impl SuperMetroid {
    /// The tileset at `index` of the tileset table.
    pub fn tileset(&self, index: usize) -> (r: Option<Tileset>)
        ensures
            r.is_some() <==> index < self.tilesets@.len(),
            r.is_some() ==> r.unwrap() == self.tilesets@[index as int].value,
    {
        if index < self.tilesets.len() {
            Some(self.tilesets[index].value)
        } else {
            None
        }
    }

    /// The state at `addr`.
    pub fn state(&self, addr: usize) -> (r: Option<State>)
        requires
            self.wf(),
        ensures
            r.is_some() <==> self.states@.contains_key(addr),
            r.is_some() ==> r.unwrap() == self.states@[addr].value,
    {
        match self.states.get(addr) {
            Some(s) => Some(s.value),
            None => None,
        }
    }

    /// The room at `addr`.
    pub fn room(&self, addr: usize) -> (r: Option<&Room>)
        requires
            self.wf(),
        ensures
            r.is_some() <==> self.rooms@.contains_key(addr),
            r.is_some() ==> *r.unwrap() == self.rooms@[addr],
    {
        self.rooms.get(addr)
    }

    /// The palette at `addr`.
    pub fn palette(&self, addr: usize) -> (r: Option<&Palette>)
        requires
            self.wf(),
        ensures
            r.is_some() <==> self.palettes@.contains_key(addr),
            r.is_some() ==> *r.unwrap() == self.palettes@[addr].value,
    {
        match self.palettes.get(addr) {
            Some(p) => Some(&p.value),
            None => None,
        }
    }

    /// The level data at `addr`.
    pub fn level(&self, addr: usize) -> (r: Option<&LevelData>)
        requires
            self.wf(),
        ensures
            r.is_some() <==> self.levels@.contains_key(addr),
            r.is_some() ==> *r.unwrap() == self.levels@[addr].value,
    {
        match self.levels.get(addr) {
            Some(l) => Some(&l.value),
            None => None,
        }
    }

    /// The addresses of the rooms, in the order they were read.
    pub fn room_addresses(&self) -> (r: Vec<usize>)
        ensures
            r@ == self.rooms.key_seq(),
    {
        self.rooms.keys()
    }

    /// The addresses of the palettes, in the order they were read.
    pub fn palette_addresses(&self) -> (r: Vec<usize>)
        ensures
            r@ == self.palettes.key_seq(),
    {
        self.palettes.keys()
    }

    /// The palette, graphics and tile table of tileset `index`.
    pub fn get_tileset_data(&self, index: usize) -> (r: Option<(&Palette, &Gfx, &TileTable)>)
        requires
            self.wf(),
        ensures
            r.is_some() <==> index < self.tilesets@.len(),
            r.is_some() ==> {
                let t = self.tilesets@[index as int].value;
                &&& *r.unwrap().0 == self.palettes@[t.palette].value
                &&& *r.unwrap().1 == self.graphics@[t.graphic]
                &&& *r.unwrap().2 == self.tile_tables@[t.tile_table]
            },
    {
        if index >= self.tilesets.len() {
            return None;
        }
        let t = self.tilesets[index].value;
        assert(self.tilesets@[index as int].value.valid());
        let p = self.palettes.get(t.palette).unwrap();
        let g = self.graphics.get(t.graphic).unwrap();
        let tt = self.tile_tables.get(t.tile_table).unwrap();
        Some((&p.value, g, tt))
    }

    /// The level data, palette, graphics and tile table that `state` shows.
    pub fn get_state_data(&self, state: &State) -> (r: Option<(&LevelData, &Palette, &Gfx, &TileTable)>)
        requires
            self.wf(),
        ensures
            r.is_some() <==> (state.tileset as int) < self.tilesets@.len()
                && self.levels@.contains_key(state.level_address),
            r.is_some() ==> {
                let t = self.tilesets@[state.tileset as int].value;
                &&& *r.unwrap().0 == self.levels@[state.level_address].value
                &&& *r.unwrap().1 == self.palettes@[t.palette].value
                &&& *r.unwrap().2 == self.graphics@[t.graphic]
                &&& *r.unwrap().3 == self.tile_tables@[t.tile_table]
            },
    {
        let level = match self.levels.get(state.level_address) {
            Some(l) => l,
            None => {
                return None;
            },
        };
        match self.get_tileset_data(state.tileset as usize) {
            Some((p, g, tt)) => Some((&level.value, p, g, tt)),
            None => None,
        }
    }

    /// The graphics at `addr` cut or padded to the tileset's own 640 tiles,
    /// followed by the common graphics, so that tile numbers from 640 on name
    /// common tiles.
    pub fn gfx_with_cre(&self, addr: usize) -> (r: Option<Gfx>)
        requires
            self.wf(),
        ensures
            r.is_some() <==> self.graphics@.contains_key(addr) && self.graphics@.contains_key(
                CRE_GFX_PC,
            ),
            r.is_some() ==> r.unwrap().pixels@ == gfx_with_cre_spec(*self, addr),
    {
        let sce = match self.graphics.get(addr) {
            Some(g) => g,
            None => {
                return None;
            },
        };
        let cre = match self.graphics.get(CRE_GFX_PC) {
            Some(g) => g,
            None => {
                return None;
            },
        };
        let mut pixels: Vec<u8> = Vec::new();
        let mut k: usize = 0;
        while k < SCE_TILES * 64
            invariant
                k <= SCE_TILES * 64,
                pixels@ == fit_pixels(sce.pixels@, SCE_TILES * 64).subrange(0, k as int),
            decreases SCE_TILES * 64 - k,
        {
            if k < sce.pixels.len() {
                pixels.push(sce.pixels[k]);
            } else {
                pixels.push(0);
            }
            k += 1;
            assert(pixels@ =~= fit_pixels(sce.pixels@, SCE_TILES * 64).subrange(0, k as int));
        }
        let ghost head = pixels@;
        let mut k: usize = 0;
        while k < cre.pixels.len()
            invariant
                k <= cre.pixels@.len(),
                pixels@ == head + cre.pixels@.subrange(0, k as int),
            decreases cre.pixels@.len() - k,
        {
            pixels.push(cre.pixels[k]);
            k += 1;
            assert(pixels@ =~= head + cre.pixels@.subrange(0, k as int));
        }
        assert(cre.pixels@.subrange(0, k as int) =~= cre.pixels@);
        assert(head =~= fit_pixels(sce.pixels@, SCE_TILES * 64));
        Some(Gfx { pixels })
    }

    /// The common tile table followed by the tile table at `addr`, so that
    /// block numbers from the common table's length on name the tileset's
    /// own blocks.
    pub fn tile_table_with_cre(&self, addr: usize) -> (r: Option<TileTable>)
        requires
            self.wf(),
        ensures
            r.is_some() <==> self.tile_tables@.contains_key(addr) && self.tile_tables@.contains_key(
                CRE_TILE_TABLE_PC,
            ),
            r.is_some() ==> r.unwrap().entries@ == self.tile_tables@[CRE_TILE_TABLE_PC].entries@
                + self.tile_tables@[addr].entries@,
    {
        let sce = match self.tile_tables.get(addr) {
            Some(t) => t,
            None => {
                return None;
            },
        };
        let cre = match self.tile_tables.get(CRE_TILE_TABLE_PC) {
            Some(t) => t,
            None => {
                return None;
            },
        };
        let mut entries: Vec<u16> = Vec::new();
        let mut k: usize = 0;
        while k < cre.entries.len()
            invariant
                k <= cre.entries@.len(),
                entries@ == cre.entries@.subrange(0, k as int),
            decreases cre.entries@.len() - k,
        {
            entries.push(cre.entries[k]);
            k += 1;
            assert(entries@ =~= cre.entries@.subrange(0, k as int));
        }
        let ghost e0 = entries@;
        let mut k: usize = 0;
        while k < sce.entries.len()
            invariant
                k <= sce.entries@.len(),
                entries@ == e0 + sce.entries@.subrange(0, k as int),
            decreases sce.entries@.len() - k,
        {
            entries.push(sce.entries[k]);
            k += 1;
            assert(entries@ =~= e0 + sce.entries@.subrange(0, k as int));
        }
        assert(sce.entries@.subrange(0, k as int) =~= sce.entries@);
        assert(cre.entries@.subrange(0, cre.entries@.len() as int) =~= cre.entries@);
        Some(TileTable { entries })
    }
}


impl SuperMetroid {
    /// Sets the color at `index` of sub-palette `sub` of the palette at
    /// `addr`, narrowed to the stored precision, and marks the palette edited.
    /// False, with nothing changed, when no palette is at `addr`.
    pub fn set_palette_color(&mut self, addr: usize, sub: usize, index: usize, color: Rgb888) -> (r:
        bool)
        requires
            old(self).wf(),
            sub < crate::palette::NUMBER_OF_SUB_PALETTES,
            index < crate::palette::COLORS_BY_SUB_PALETTE,
        ensures
            final(self).wf(),
            r == old(self).palettes@.contains_key(addr),
            r ==> final(self).palettes@ == old(self).palettes@.insert(
                addr,
                Stored {
                    value: Palette {
                        colors: final(self).palettes@[addr].value.colors,
                    },
                    size: old(self).palettes@[addr].size,
                    edited: true,
                },
            ),
            r ==> final(self).palettes@[addr].value.colors@ == old(
                self,
            ).palettes@[addr].value.colors@.update(sub * 16 + index, bgr_of(color)),
            !r ==> final(self).palettes@ == old(self).palettes@,
            final(self).rom == old(self).rom,
            final(self).rooms == old(self).rooms,
            final(self).states == old(self).states,
            final(self).tilesets == old(self).tilesets,
            final(self).graphics == old(self).graphics,
            final(self).tile_tables == old(self).tile_tables,
            final(self).levels == old(self).levels,
    {
        let i = match self.palettes.find(addr) {
            Some(i) => i,
            None => {
                return false;
            },
        };
        let ghost e0 = self.palettes.entries@;
        assert(self.palettes@[addr].value.wf());
        self.palettes.entries[i].1.value.set_color(sub, index, color);
        self.palettes.entries[i].1.edited = true;
        proof {
            let v = self.palettes.entries@[i as int].1;
            assert(self.palettes.entries@ =~= e0.update(i as int, (addr, v)));
            lemma_to_map_update(e0, i as int, addr, v);
            assert(old(self).palettes@.remove(addr).insert(addr, v) =~= old(self).palettes@.insert(addr, v));
        }
        true
    }
}


impl SuperMetroid {
    /// Points tileset `index` at the palette at `addr` and marks it edited.
    /// False, with nothing changed, when there is no such tileset or no palette
    /// at `addr`.
    pub fn set_tileset_palette(&mut self, index: usize, addr: usize) -> (r: bool)
        requires
            old(self).wf(),
        ensures
            final(self).wf(),
            r == (index < old(self).tilesets@.len() && old(self).palettes@.contains_key(addr)),
            r ==> final(self).tilesets@ == old(self).tilesets@.update(
                index as int,
                Stored {
                    value: Tileset { palette: addr, ..old(self).tilesets@[index as int].value },
                    size: old(self).tilesets@[index as int].size,
                    edited: true,
                },
            ),
            !r ==> final(self).tilesets@ == old(self).tilesets@,
            final(self).rom == old(self).rom,
            final(self).rooms == old(self).rooms,
            final(self).states == old(self).states,
            final(self).palettes == old(self).palettes,
            final(self).graphics == old(self).graphics,
            final(self).tile_tables == old(self).tile_tables,
            final(self).levels == old(self).levels,
    {
        if index >= self.tilesets.len() || !self.palettes.contains_key(addr) {
            return false;
        }
        proof {
            assert(self.rom@.len() <= LOROM_MAX_SIZE);
            assert(self.palettes@.contains_key(addr));
        }
        self.tilesets[index].value.palette = addr;
        self.tilesets[index].edited = true;
        proof {
            assert(self.tilesets@[index as int].value.valid());
        }
        true
    }

    /// Points tileset `index` at the graphics at `addr` and marks it edited.
    /// False, with nothing changed, when there is no such tileset or no graphics
    /// at `addr`.
    pub fn set_tileset_graphic(&mut self, index: usize, addr: usize) -> (r: bool)
        requires
            old(self).wf(),
        ensures
            final(self).wf(),
            r == (index < old(self).tilesets@.len() && old(self).graphics@.contains_key(addr)),
            r ==> final(self).tilesets@ == old(self).tilesets@.update(
                index as int,
                Stored {
                    value: Tileset { graphic: addr, ..old(self).tilesets@[index as int].value },
                    size: old(self).tilesets@[index as int].size,
                    edited: true,
                },
            ),
            !r ==> final(self).tilesets@ == old(self).tilesets@,
            final(self).rom == old(self).rom,
            final(self).rooms == old(self).rooms,
            final(self).states == old(self).states,
            final(self).palettes == old(self).palettes,
            final(self).graphics == old(self).graphics,
            final(self).tile_tables == old(self).tile_tables,
            final(self).levels == old(self).levels,
    {
        if index >= self.tilesets.len() || !self.graphics.contains_key(addr) {
            return false;
        }
        proof {
            assert(self.rom@.len() <= LOROM_MAX_SIZE);
            assert(self.graphics@.contains_key(addr));
        }
        self.tilesets[index].value.graphic = addr;
        self.tilesets[index].edited = true;
        proof {
            assert(self.tilesets@[index as int].value.valid());
        }
        true
    }

    /// Points tileset `index` at the tile table at `addr` and marks it edited.
    /// False, with nothing changed, when there is no such tileset or no tile table
    /// at `addr`.
    pub fn set_tileset_tile_table(&mut self, index: usize, addr: usize) -> (r: bool)
        requires
            old(self).wf(),
        ensures
            final(self).wf(),
            r == (index < old(self).tilesets@.len() && old(self).tile_tables@.contains_key(addr)),
            r ==> final(self).tilesets@ == old(self).tilesets@.update(
                index as int,
                Stored {
                    value: Tileset { tile_table: addr, ..old(self).tilesets@[index as int].value },
                    size: old(self).tilesets@[index as int].size,
                    edited: true,
                },
            ),
            !r ==> final(self).tilesets@ == old(self).tilesets@,
            final(self).rom == old(self).rom,
            final(self).rooms == old(self).rooms,
            final(self).states == old(self).states,
            final(self).palettes == old(self).palettes,
            final(self).graphics == old(self).graphics,
            final(self).tile_tables == old(self).tile_tables,
            final(self).levels == old(self).levels,
    {
        if index >= self.tilesets.len() || !self.tile_tables.contains_key(addr) {
            return false;
        }
        proof {
            assert(self.rom@.len() <= LOROM_MAX_SIZE);
            assert(self.tile_tables@.contains_key(addr));
        }
        self.tilesets[index].value.tile_table = addr;
        self.tilesets[index].edited = true;
        proof {
            assert(self.tilesets@[index as int].value.valid());
        }
        true
    }

    /// Makes the state at `addr` use tileset `tileset` and marks it edited.
    /// False, with nothing changed, when there is no state at `addr` or no
    /// such tileset.
    pub fn set_state_tileset(&mut self, addr: usize, tileset: u8) -> (r: bool)
        requires
            old(self).wf(),
        ensures
            final(self).wf(),
            r == (old(self).states@.contains_key(addr) && (tileset as int) < old(
                self,
            ).tilesets@.len()),
            r ==> final(self).states@ == old(self).states@.insert(
                addr,
                Stored {
                    value: State { tileset, ..old(self).states@[addr].value },
                    size: old(self).states@[addr].size,
                    edited: true,
                },
            ),
            !r ==> final(self).states@ == old(self).states@,
            final(self).rom == old(self).rom,
            final(self).rooms == old(self).rooms,
            final(self).tilesets == old(self).tilesets,
            final(self).palettes == old(self).palettes,
            final(self).graphics == old(self).graphics,
            final(self).tile_tables == old(self).tile_tables,
            final(self).levels == old(self).levels,
    {
        if tileset as usize >= self.tilesets.len() {
            return false;
        }
        let i = match self.states.find(addr) {
            Some(i) => i,
            None => {
                return false;
            },
        };
        let ghost e0 = self.states.entries@;
        self.states.entries[i].1.value.tileset = tileset;
        self.states.entries[i].1.edited = true;
        proof {
            let v = self.states.entries@[i as int].1;
            assert(self.states.entries@ =~= e0.update(i as int, (addr, v)));
            lemma_to_map_update(e0, i as int, addr, v);
            assert(old(self).states@.remove(addr).insert(addr, v) =~= old(self).states@.insert(addr, v));
        }
        true
    }

    /// Sets the block and BTS byte at position `pos` of the level data at
    /// `addr` and marks it edited. False, with nothing changed, when there is
    /// no level data at `addr`, `pos` is past its end, or the block number
    /// does not fit in ten bits.
    pub fn set_level_block(&mut self, addr: usize, pos: usize, block: Block, bts: u8) -> (r: bool)
        requires
            old(self).wf(),
        ensures
            final(self).wf(),
            r == (old(self).levels@.contains_key(addr) && pos < old(
                self,
            ).levels@[addr].value.layer1@.len() && block.valid()),
            r ==> final(self).levels@.contains_key(addr) && final(self).levels@ == old(
                self,
            ).levels@.insert(addr, final(self).levels@[addr]),
            r ==> final(self).levels@[addr].edited && final(self).levels@[addr].size == old(
                self,
            ).levels@[addr].size,
            r ==> final(self).levels@[addr].value.layer1@ == old(
                self,
            ).levels@[addr].value.layer1@.update(pos as int, block),
            r ==> final(self).levels@[addr].value.bts@ == old(self).levels@[addr].value.bts@.update(
                pos as int,
                bts,
            ),
            r ==> final(self).levels@[addr].value.layer2@ == old(self).levels@[addr].value.layer2@,
            !r ==> final(self).levels@ == old(self).levels@,
            final(self).rom == old(self).rom,
            final(self).rooms == old(self).rooms,
            final(self).tilesets == old(self).tilesets,
            final(self).palettes == old(self).palettes,
            final(self).graphics == old(self).graphics,
            final(self).tile_tables == old(self).tile_tables,
            final(self).states == old(self).states,
    {
        if block.block_number >= 1024 {
            return false;
        }
        let i = match self.levels.find(addr) {
            Some(i) => i,
            None => {
                return false;
            },
        };
        if pos >= self.levels.entries[i].1.value.layer1.len() {
            return false;
        }
        let ghost e0 = self.levels.entries@;
        assert(self.levels@[addr].value.wf());
        self.levels.entries[i].1.value.layer1.set(pos, block);
        self.levels.entries[i].1.value.bts.set(pos, bts);
        self.levels.entries[i].1.edited = true;
        proof {
            let v = self.levels.entries@[i as int].1;
            assert(self.levels.entries@ =~= e0.update(i as int, (addr, v)));
            lemma_to_map_update(e0, i as int, addr, v);
            assert(old(self).levels@.remove(addr).insert(addr, v) =~= old(self).levels@.insert(addr, v));
            assert(v.value.wf());
        }
        true
    }
}


impl SuperMetroid {
    /// Pastes a selection taken column by column from a rectangle `w` blocks
    /// wide and `h` high into the level data at `addr`, at `(x, y)` of a room
    /// `width` blocks wide, and marks the level data edited. False, with
    /// nothing changed, when there is no level data at `addr` or the
    /// rectangle does not fit in it.
    pub fn apply_level_selection(
        &mut self,
        addr: usize,
        width: usize,
        x: usize,
        y: usize,
        w: usize,
        h: usize,
        data: &Vec<(Block, u8)>,
    ) -> (r: bool)
        requires
            old(self).wf(),
            forall|k: int| 0 <= k < data@.len() ==> (#[trigger] data@[k]).0.valid(),
        ensures
            final(self).wf(),
            r == (old(self).levels@.contains_key(addr) && x + w <= width && (y + h) * width
                <= old(self).levels@[addr].value.layer1@.len()),
            r ==> final(self).levels@ == old(self).levels@.insert(addr, final(self).levels@[addr]),
            r ==> final(self).levels@[addr].edited && final(self).levels@[addr].size == old(
                self,
            ).levels@[addr].size,
            r ==> final(self).levels@[addr].value.layer1@ == Seq::new(
                old(self).levels@[addr].value.layer1@.len(),
                |i: int|
                    crate::editing::applied(
                        old(self).levels@[addr].value.layer1@,
                        data@.map_values(|e: (Block, u8)| e.0),
                        width as int,
                        x as int,
                        y as int,
                        w as int,
                        h as int,
                        w * h,
                        i,
                    ),
            ),
            r ==> final(self).levels@[addr].value.bts@ == Seq::new(
                old(self).levels@[addr].value.bts@.len(),
                |i: int|
                    crate::editing::applied(
                        old(self).levels@[addr].value.bts@,
                        data@.map_values(|e: (Block, u8)| e.1),
                        width as int,
                        x as int,
                        y as int,
                        w as int,
                        h as int,
                        w * h,
                        i,
                    ),
            ),
            r ==> final(self).levels@[addr].value.layer2@ == old(self).levels@[addr].value.layer2@,
            !r ==> final(self).levels@ == old(self).levels@,
            final(self).rom == old(self).rom,
            final(self).rooms == old(self).rooms,
            final(self).tilesets == old(self).tilesets,
            final(self).palettes == old(self).palettes,
            final(self).graphics == old(self).graphics,
            final(self).tile_tables == old(self).tile_tables,
            final(self).states == old(self).states,
    {
        let i = match self.levels.find(addr) {
            Some(i) => i,
            None => {
                return false;
            },
        };
        if x > width || w > width - x {
            return false;
        }
        let n = self.levels.entries[i].1.value.layer1.len();
        if width > 0 {
            match y.checked_add(h) {
                None => {
                    assert((y + h) * width > n) by (nonlinear_arith)
                        requires
                            y + h > usize::MAX,
                            width >= 1,
                            n <= usize::MAX,
                    ;
                    return false;
                },
                Some(bottom) => match bottom.checked_mul(width) {
                    None => {
                        return false;
                    },
                    Some(end) => {
                        if end > n {
                            return false;
                        }
                    },
                },
            }
        } else {
            assert((y + h) * width == 0) by (nonlinear_arith)
                requires
                    width == 0,
            ;
        }
        let ghost e0 = self.levels.entries@;
        assert(self.levels@[addr].value.wf());
        self.levels.entries[i].1.value.apply_selection(width, x, y, w, h, data);
        self.levels.entries[i].1.edited = true;
        proof {
            let v = self.levels.entries@[i as int].1;
            assert(self.levels.entries@ =~= e0.update(i as int, (addr, v)));
            lemma_to_map_update(e0, i as int, addr, v);
            assert(old(self).levels@.remove(addr).insert(addr, v) =~= old(self).levels@.insert(addr, v));
            assert(v.value.wf());
        }
        true
    }
}


/// `s` is in strictly increasing order.
pub open spec fn strictly_sorted(s: Seq<usize>) -> bool {
    forall|i: int, j: int| 0 <= i < j < s.len() ==> s[i] < s[j]
}

/// Inserts `v`, which `s` does not hold, into the strictly sorted `s`.
fn insert_sorted(s: &mut Vec<usize>, v: usize)
    requires
        strictly_sorted(old(s)@),
        !old(s)@.contains(v),
    ensures
        strictly_sorted(final(s)@),
        final(s)@.to_set() == old(s)@.to_set().insert(v),
        final(s)@.len() == old(s)@.len() + 1,
{
    let mut i: usize = 0;
    while i < s.len() && s[i] < v
        invariant
            i <= s@.len(),
            forall|j: int| 0 <= j < i ==> s@[j] < v,
        decreases s@.len() - i,
    {
        i += 1;
    }
    let ghost s0 = s@;
    proof {
        if i < s0.len() {
            assert(s0[i as int] != v);
        }
    }
    s.insert(i, v);
    assert(s@ =~= s0.insert(i as int, v));
    assert forall|k: usize| s@.to_set().contains(k) <==> s0.to_set().insert(v).contains(k) by {
        if s@.contains(k) {
            let j = choose|j: int| 0 <= j < s@.len() && s@[j] == k;
            if j < i {
                assert(s0[j] == k);
            } else if j > i {
                assert(s0[j - 1] == k);
            }
        }
        if s0.contains(k) {
            let j = choose|j: int| 0 <= j < s0.len() && s0[j] == k;
            if j < i {
                assert(s@[j] == k);
            } else {
                assert(s@[j + 1] == k);
            }
        }
        if k == v {
            assert(s@[i as int] == v);
        }
    }
    assert(s@.to_set() =~= s0.to_set().insert(v));
}

impl SuperMetroid {
    /// The room addresses in increasing order.
    pub fn sorted_room_addresses(&self) -> (r: Vec<usize>)
        requires
            self.wf(),
        ensures
            strictly_sorted(r@),
            r@.to_set() == self.rooms@.dom(),
            r@.len() == self.rooms@.dom().len(),
    {
        let keys = self.rooms.keys();
        proof {
            self.rooms.lemma_dom_is_keys();
        }
        let mut r: Vec<usize> = Vec::new();
        let mut i: usize = 0;
        while i < keys.len()
            invariant
                self.wf(),
                keys@ == self.rooms.key_seq(),
                i <= keys@.len(),
                strictly_sorted(r@),
                r@.to_set() == keys@.subrange(0, i as int).to_set(),
                r@.len() == i,
            decreases keys@.len() - i,
        {
            proof {
                if r@.contains(keys@[i as int]) {
                    assert(r@.to_set().contains(keys@[i as int]));
                    let j = choose|j: int| 0 <= j < i && keys@.subrange(0, i as int)[j] == keys@[i as int];
                    assert(self.rooms.entries@[j].0 == self.rooms.entries@[i as int].0);
                }
            }
            insert_sorted(&mut r, keys[i]);
            proof {
                assert(keys@.subrange(0, i + 1) =~= keys@.subrange(0, i as int).push(keys@[i as int]));
                keys@.subrange(0, i as int).lemma_push_to_set_commute(keys@[i as int]);
                assert(keys@.subrange(0, i + 1).to_set() =~= keys@.subrange(0, i as int).to_set().insert(keys@[i as int]));
            }
            i += 1;
        }
        assert(keys@.subrange(0, i as int) =~= keys@);
        r
    }
}


impl SuperMetroid {
    /// What showing room `addr` selects: its first state and that state's
    /// tileset. `None` when there is no such room or it lists no state.
    pub fn room_selection(&self, addr: usize) -> (r: Option<(usize, usize)>)
        requires
            self.wf(),
        ensures
            r.is_some() <==> self.rooms@.contains_key(addr)
                && self.rooms@[addr].state_conditions@.len() > 0,
            r.is_some() ==> {
                let s = self.rooms@[addr].state_conditions@[0].state_address;
                &&& r.unwrap().0 == s
                &&& r.unwrap().1 == self.states@[s].value.tileset
                &&& self.states@.contains_key(s)
                &&& r.unwrap().1 < self.tilesets@.len()
            },
    {
        let room = match self.rooms.get(addr) {
            Some(room) => room,
            None => {
                return None;
            },
        };
        if room.state_conditions.len() == 0 {
            return None;
        }
        let s = room.state_conditions[0].state_address;
        assert(self.states@.contains_key(self.rooms@[addr].state_conditions@[0].state_address));
        let state = self.states.get(s).unwrap();
        Some((s, state.value.tileset as usize))
    }

    /// What opening the image selects: the room at the lowest address, its
    /// first state and that state's tileset. `None` when there is no room or
    /// that room lists no state.
    pub fn first_selection(&self) -> (r: Option<(usize, usize, usize)>)
        requires
            self.wf(),
        ensures
            r.is_some() ==> {
                let room = r.unwrap().0;
                let s = self.rooms@[room].state_conditions@[0].state_address;
                &&& self.rooms@.contains_key(room)
                &&& forall|k: usize| #[trigger] self.rooms@.contains_key(k) ==> room <= k
                &&& self.rooms@[room].state_conditions@.len() > 0
                &&& r.unwrap().1 == s
                &&& r.unwrap().2 == self.states@[s].value.tileset
            },
            r.is_none() <==> self.rooms@.dom().len() == 0 || exists|room: usize|
                #[trigger] self.rooms@.contains_key(room) && (forall|k: usize| #[trigger]
                    self.rooms@.contains_key(k) ==> room <= k)
                    && self.rooms@[room].state_conditions@.len() == 0,
    {
        let sorted = self.sorted_room_addresses();
        if sorted.len() == 0 {
            proof {
                self.rooms.lemma_dom_is_keys();
            }
            return None;
        }
        let room = sorted[0];
        proof {
            assert(sorted@.contains(room));
            assert(sorted@.to_set().contains(room));
            assert forall|k: usize| #[trigger] self.rooms@.contains_key(k) implies room <= k by {
                assert(sorted@.to_set().contains(k));
                let j = choose|j: int| 0 <= j < sorted@.len() && sorted@[j] == k;
                if j > 0 {
                    assert(sorted@[0] < sorted@[j]);
                }
            }
        }
        match self.room_selection(room) {
            Some((s, t)) => Some((room, s, t)),
            None => None,
        }
    }
}


impl SuperMetroid {
    /// The aggregate before any image is loaded: an empty image and empty
    /// maps. Saving it writes nothing and moves nothing.
    pub fn unloaded() -> (r: SuperMetroid)
        ensures
            r.wf(),
            unedited(r),
            r.rom@.len() == 0,
            r.rooms@ == Map::<usize, Room>::empty(),
            r.states@ == Map::<usize, Stored<State>>::empty(),
            r.tilesets@.len() == 0,
            r.palettes@ == Map::<usize, Stored<Palette>>::empty(),
            r.graphics@ == Map::<usize, Gfx>::empty(),
            r.tile_tables@ == Map::<usize, TileTable>::empty(),
            r.levels@ == Map::<usize, Stored<LevelData>>::empty(),
    {
        SuperMetroid {
            rom: Vec::new(),
            rooms: AddressMap::new(),
            states: AddressMap::new(),
            tilesets: Vec::new(),
            palettes: AddressMap::new(),
            graphics: AddressMap::new(),
            tile_tables: AddressMap::new(),
            levels: AddressMap::new(),
        }
    }
}

} // verus!

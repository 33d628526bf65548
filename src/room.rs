//! Rooms, their state conditions, states and tilesets.
use vstd::prelude::*;
use crate::address::{
    is_lorom_address, pc_to_snes, pc_to_snes_spec, push_u16, push_u24, read_u24, snes_to_pc,
    snes_to_pc_spec, u16_at, u16_bytes, u24_at, u24_bytes, LOROM_MAX_SIZE,
};

verus! {

/// File offset of bank $8F, where rooms and states live.
pub const ROOM_BANK_PC: usize = 0x78000;

/// The condition code of the default state, which ends a room's list.
pub const DEFAULT_STATE_CONDITION: u16 = 0xE5E6;

/// Bytes of a room header.
pub const ROOM_HEADER_BYTES: usize = 11;

/// Bytes of a state record.
pub const STATE_BYTES: usize = 26;

/// Bytes of a tileset record.
pub const TILESET_BYTES: usize = 9;

/// Blocks along one side of a screen.
pub const BLOCKS_PER_SCREEN: usize = 16;

/// Why a record could not be read.
#[derive(Debug, Clone, Copy, PartialEq, Eq, Structural)]
pub enum RecordError {
    /// The record runs past the end of the ROM.
    OutOfBounds,
    /// A pointer does not point into the ROM's banks.
    InvalidPointer,
}

/// A tileset: the file offsets of its tile table, graphics and palette.
#[derive(Debug, Clone, Copy, PartialEq, Eq, Structural, Default)]
pub struct Tileset {
    pub tile_table: usize,
    pub graphic: usize,
    pub palette: usize,
}

/// The offset a 24-bit LoROM pointer at `i` points to, if it is one.
pub open spec fn long_pointer_at(b: Seq<u8>, i: int) -> Option<usize> {
    if is_lorom_address(u24_at(b, i)) {
        Some(snes_to_pc_spec(u24_at(b, i)) as usize)
    } else {
        None
    }
}

/// The tileset whose nine bytes start at `i` (`i + 9` within `b`).
pub open spec fn tileset_at(b: Seq<u8>, i: int) -> Option<Tileset> {
    match (long_pointer_at(b, i), long_pointer_at(b, i + 3), long_pointer_at(b, i + 6)) {
        (Some(t), Some(g), Some(p)) => Some(Tileset { tile_table: t, graphic: g, palette: p }),
        _ => None,
    }
}

fn read_long_pointer(b: &[u8], pos: usize) -> (r: Result<usize, RecordError>)
    ensures
        r.is_ok() <==> pos + 3 <= b@.len() && long_pointer_at(b@, pos as int) is Some,
        pos + 3 > b@.len() ==> r == Err::<usize, RecordError>(RecordError::OutOfBounds),
        pos + 3 <= b@.len() && r.is_err() ==> r == Err::<usize, RecordError>(
            RecordError::InvalidPointer,
        ),
        r.is_ok() ==> Some(r.unwrap()) == long_pointer_at(b@, pos as int) && r.unwrap()
            < LOROM_MAX_SIZE,
{
    match read_u24(b, pos) {
        Err(_) => Err(RecordError::OutOfBounds),
        Ok(v) => match snes_to_pc(v) {
            None => Err(RecordError::InvalidPointer),
            Some(pc) => Ok(pc),
        },
    }
}

/// Reads the tileset record at `pos`.
pub fn parse_tileset(b: &[u8], pos: usize) -> (r: Result<Tileset, RecordError>)
    ensures
        r.is_ok() <==> pos + 9 <= b@.len() && tileset_at(b@, pos as int) is Some,
        pos + 9 > b@.len() ==> r == Err::<Tileset, RecordError>(RecordError::OutOfBounds),
        pos + 9 <= b@.len() && r.is_err() ==> r == Err::<Tileset, RecordError>(
            RecordError::InvalidPointer,
        ),
        r.is_ok() ==> Some(r.unwrap()) == tileset_at(b@, pos as int),
{
    if pos > b.len() || b.len() - pos < TILESET_BYTES {
        return Err(RecordError::OutOfBounds);
    }
    let tile_table = read_long_pointer(b, pos)?;
    let graphic = read_long_pointer(b, pos + 3)?;
    let palette = read_long_pointer(b, pos + 6)?;
    Ok(Tileset { tile_table, graphic, palette })
}

/// The nine bytes that store a tileset.
pub open spec fn tileset_bytes(t: Tileset) -> Seq<u8> {
    u24_bytes(pc_to_snes_spec(t.tile_table as int)) + u24_bytes(pc_to_snes_spec(t.graphic as int))
        + u24_bytes(pc_to_snes_spec(t.palette as int))
}

impl Tileset {
    /// Every offset lies within LoROM reach.
    pub open spec fn valid(self) -> bool {
        self.tile_table < LOROM_MAX_SIZE && self.graphic < LOROM_MAX_SIZE && self.palette
            < LOROM_MAX_SIZE
    }

    /// Encodes the record.
    pub fn to_bytes(&self) -> (r: Vec<u8>)
        requires
            self.valid(),
        ensures
            r@ == tileset_bytes(*self),
    {
        let mut r: Vec<u8> = Vec::new();
        push_u24(&mut r, pc_to_snes(self.tile_table));
        push_u24(&mut r, pc_to_snes(self.graphic));
        push_u24(&mut r, pc_to_snes(self.palette));
        assert(r@ =~= tileset_bytes(*self));
        r
    }
}

/// A state: its level data's offset, its tileset index, and the other
/// fields, which the codec keeps as they are.
#[derive(Debug, Clone, Copy, PartialEq, Eq, Structural, Default)]
pub struct State {
    pub level_address: usize,
    pub tileset: u8,
    pub music_data: u8,
    pub music_track: u8,
    pub fx: u16,
    pub enemy_population: u16,
    pub enemy_set: u16,
    pub layer2_scroll: u16,
    pub scroll: u16,
    pub special_xray: u16,
    pub main_asm: u16,
    pub plm_population: u16,
    pub library_background: u16,
    pub setup_asm: u16,
}

/// The state whose 26 bytes start at `i`.
pub open spec fn state_at(b: Seq<u8>, i: int) -> Option<State> {
    match long_pointer_at(b, i) {
        None => None,
        Some(level) => Some(
            State {
                level_address: level,
                tileset: b[i + 3],
                music_data: b[i + 4],
                music_track: b[i + 5],
                fx: u16_at(b, i + 6) as u16,
                enemy_population: u16_at(b, i + 8) as u16,
                enemy_set: u16_at(b, i + 10) as u16,
                layer2_scroll: u16_at(b, i + 12) as u16,
                scroll: u16_at(b, i + 14) as u16,
                special_xray: u16_at(b, i + 16) as u16,
                main_asm: u16_at(b, i + 18) as u16,
                plm_population: u16_at(b, i + 20) as u16,
                library_background: u16_at(b, i + 22) as u16,
                setup_asm: u16_at(b, i + 24) as u16,
            },
        ),
    }
}

/// Reads the state record at `pos`.
pub fn parse_state(b: &[u8], pos: usize) -> (r: Result<State, RecordError>)
    ensures
        r.is_ok() <==> pos + 26 <= b@.len() && state_at(b@, pos as int) is Some,
        pos + 26 > b@.len() ==> r == Err::<State, RecordError>(RecordError::OutOfBounds),
        pos + 26 <= b@.len() && r.is_err() ==> r == Err::<State, RecordError>(
            RecordError::InvalidPointer,
        ),
        r.is_ok() ==> Some(r.unwrap()) == state_at(b@, pos as int) && r.unwrap().level_address
            < LOROM_MAX_SIZE,
{
    if pos > b.len() || b.len() - pos < STATE_BYTES {
        return Err(RecordError::OutOfBounds);
    }
    let level_address = read_long_pointer(b, pos)?;
    Ok(
        State {
            level_address,
            tileset: b[pos + 3],
            music_data: b[pos + 4],
            music_track: b[pos + 5],
            fx: b[pos + 6] as u16 + 256 * b[pos + 7] as u16,
            enemy_population: b[pos + 8] as u16 + 256 * b[pos + 9] as u16,
            enemy_set: b[pos + 10] as u16 + 256 * b[pos + 11] as u16,
            layer2_scroll: b[pos + 12] as u16 + 256 * b[pos + 13] as u16,
            scroll: b[pos + 14] as u16 + 256 * b[pos + 15] as u16,
            special_xray: b[pos + 16] as u16 + 256 * b[pos + 17] as u16,
            main_asm: b[pos + 18] as u16 + 256 * b[pos + 19] as u16,
            plm_population: b[pos + 20] as u16 + 256 * b[pos + 21] as u16,
            library_background: b[pos + 22] as u16 + 256 * b[pos + 23] as u16,
            setup_asm: b[pos + 24] as u16 + 256 * b[pos + 25] as u16,
        },
    )
}

/// The 26 bytes that store a state.
pub open spec fn state_bytes(s: State) -> Seq<u8> {
    u24_bytes(pc_to_snes_spec(s.level_address as int)) + seq![s.tileset, s.music_data, s.music_track]
        + u16_bytes(s.fx as int) + u16_bytes(s.enemy_population as int) + u16_bytes(
        s.enemy_set as int,
    ) + u16_bytes(s.layer2_scroll as int) + u16_bytes(s.scroll as int) + u16_bytes(
        s.special_xray as int,
    ) + u16_bytes(s.main_asm as int) + u16_bytes(s.plm_population as int) + u16_bytes(
        s.library_background as int,
    ) + u16_bytes(s.setup_asm as int)
}

impl State {
    /// Encodes the record.
    pub fn to_bytes(&self) -> (r: Vec<u8>)
        requires
            self.level_address < LOROM_MAX_SIZE,
        ensures
            r@ == state_bytes(*self),
    {
        let mut r: Vec<u8> = Vec::new();
        push_u24(&mut r, pc_to_snes(self.level_address));
        r.push(self.tileset);
        r.push(self.music_data);
        r.push(self.music_track);
        push_u16(&mut r, self.fx);
        push_u16(&mut r, self.enemy_population);
        push_u16(&mut r, self.enemy_set);
        push_u16(&mut r, self.layer2_scroll);
        push_u16(&mut r, self.scroll);
        push_u16(&mut r, self.special_xray);
        push_u16(&mut r, self.main_asm);
        push_u16(&mut r, self.plm_population);
        push_u16(&mut r, self.library_background);
        push_u16(&mut r, self.setup_asm);
        assert(r@ =~= state_bytes(*self));
        r
    }
}

/// One entry of a room's state list: a condition code and the offset of the
/// state that it selects.
#[derive(Debug, Clone, Copy, PartialEq, Eq, Structural, Default)]
pub struct StateCondition {
    pub condition: u16,
    pub state_address: usize,
}

/// The state list that starts at `i`: records of a condition word and a
/// bank-$8F state pointer, up to the default condition, whose state follows
/// it directly.
pub open spec fn conditions_at(b: Seq<u8>, i: int) -> Option<Seq<StateCondition>>
    decreases b.len() - i,
{
    if i < 0 || i + 2 > b.len() {
        None
    } else if u16_at(b, i) == DEFAULT_STATE_CONDITION {
        Some(
            seq![StateCondition { condition: DEFAULT_STATE_CONDITION, state_address: (i + 2) as usize }],
        )
    } else if i + 4 > b.len() || u16_at(b, i + 2) < 0x8000 {
        None
    } else {
        match conditions_at(b, i + 4) {
            None => None,
            Some(rest) => Some(
                seq![StateCondition { condition: u16_at(b, i) as u16, state_address: (ROOM_BANK_PC + u16_at(b, i + 2) - 0x8000) as usize }]
                    + rest,
            ),
        }
    }
}

/// A room: its header and its state list, which ends with the default state.
#[derive(Debug, Clone)]
pub struct Room {
    pub index: u8,
    pub area: u8,
    pub x: u8,
    pub y: u8,
    pub width: u8,
    pub height: u8,
    pub up_scroller: u8,
    pub down_scroller: u8,
    pub cre_bitset: u8,
    pub door_list: u16,
    pub state_conditions: Vec<StateCondition>,
}

impl Room {
    /// Width and height in blocks.
    pub fn size(&self) -> (r: (usize, usize))
        ensures
            r.0 == self.width * 16,
            r.1 == self.height * 16,
    {
        (self.width as usize * BLOCKS_PER_SCREEN, self.height as usize * BLOCKS_PER_SCREEN)
    }

    /// Number of block positions.
    pub fn block_count(&self) -> (r: usize)
        ensures
            r == self.width * 16 * self.height * 16,
    {
        let w = self.width as usize * BLOCKS_PER_SCREEN;
        let h = self.height as usize * BLOCKS_PER_SCREEN;
        assert(w * h <= 4080 * 4080 && w * h == self.width * 16 * self.height * 16)
            by (nonlinear_arith)
            requires
                w <= 4080,
                h <= 4080,
                w == self.width * 16,
                h == self.height * 16,
        ;
        w * h
    }

    /// Width and height in pixels.
    pub fn size_in_pixels(&self) -> (r: [usize; 2])
        ensures
            r[0] == self.width * 256,
            r[1] == self.height * 256,
    {
        [self.width as usize * 256, self.height as usize * 256]
    }
}

/// Reads the room at `pos`: its 11-byte header, then its state list.
pub fn parse_room(b: &[u8], pos: usize) -> (r: Result<Room, RecordError>)
    ensures
        r.is_ok() <==> pos + 11 <= b@.len() && conditions_at(b@, pos + 11) is Some,
        pos + 11 > b@.len() ==> r == Err::<Room, RecordError>(RecordError::OutOfBounds),
        r.is_ok() ==> {
            let room = r.unwrap();
            &&& room.index == b@[pos as int]
            &&& room.area == b@[pos + 1]
            &&& room.x == b@[pos + 2]
            &&& room.y == b@[pos + 3]
            &&& room.width == b@[pos + 4]
            &&& room.height == b@[pos + 5]
            &&& room.up_scroller == b@[pos + 6]
            &&& room.down_scroller == b@[pos + 7]
            &&& room.cre_bitset == b@[pos + 8]
            &&& room.door_list == u16_at(b@, pos + 9)
            &&& Some(room.state_conditions@) == conditions_at(b@, pos + 11)
        },
{
    if pos > b.len() || b.len() - pos < ROOM_HEADER_BYTES {
        return Err(RecordError::OutOfBounds);
    }
    let start = pos + ROOM_HEADER_BYTES;
    let mut conds: Vec<StateCondition> = Vec::new();
    let mut i = start;
    loop
        invariant
            start == pos + 11,
            pos + 11 <= b@.len(),
            start <= i <= b@.len(),
            (i - start) % 4 == 0,
            b@.len() <= usize::MAX,
            conditions_at(b@, start as int) == match conditions_at(b@, i as int) {
                None => None,
                Some(rest) => Some(conds@ + rest),
            },
        decreases b@.len() - i,
    {
        if b.len() - i < 2 {
            return Err(RecordError::OutOfBounds);
        }
        let cond = b[i] as u16 + 256 * b[i + 1] as u16;
        if cond == DEFAULT_STATE_CONDITION {
            let ghost c0 = conds@;
            conds.push(StateCondition { condition: cond, state_address: i + 2 });
            assert(conds@ =~= c0 + seq![StateCondition { condition: DEFAULT_STATE_CONDITION, state_address: (i + 2) as usize }]);
            return Ok(
                Room {
                    index: b[pos],
                    area: b[pos + 1],
                    x: b[pos + 2],
                    y: b[pos + 3],
                    width: b[pos + 4],
                    height: b[pos + 5],
                    up_scroller: b[pos + 6],
                    down_scroller: b[pos + 7],
                    cre_bitset: b[pos + 8],
                    door_list: b[pos + 9] as u16 + 256 * b[pos + 10] as u16,
                    state_conditions: conds,
                },
            );
        }
        if b.len() - i < 4 {
            return Err(RecordError::OutOfBounds);
        }
        let ptr = b[i + 2] as usize + 256 * b[i + 3] as usize;
        if ptr < 0x8000 {
            return Err(RecordError::InvalidPointer);
        }
        let ghost c0 = conds@;
        let sc = StateCondition { condition: cond, state_address: ROOM_BANK_PC + ptr - 0x8000 };
        conds.push(sc);
        proof {
            match conditions_at(b@, i + 4) {
                None => {},
                Some(rest) => {
                    assert(c0 + (seq![sc] + rest) =~= conds@ + rest);
                },
            }
        }
        i = i + 4;
    }
}


proof fn lemma_u24_bytes(v: int)
    requires
        0 <= v < 0x100_0000,
    ensures
        u24_bytes(v)[0] + 256 * u24_bytes(v)[1] + 65536 * u24_bytes(v)[2] == v,
{
    assert(v % 256 + 256 * (v / 256 % 256) + 65536 * (v / 65536 % 256) == v) by (nonlinear_arith)
        requires
            0 <= v < 0x100_0000,
    ;
}

proof fn lemma_u16_bytes(v: int)
    requires
        0 <= v < 0x1_0000,
    ensures
        u16_bytes(v)[0] + 256 * u16_bytes(v)[1] == v,
{
    assert(v % 256 + 256 * (v / 256 % 256) == v) by (nonlinear_arith)
        requires
            0 <= v < 0x1_0000,
    ;
}

proof fn lemma_pointer_round_trip(pc: int)
    requires
        0 <= pc < LOROM_MAX_SIZE,
    ensures
        0 <= pc_to_snes_spec(pc) < 0x100_0000,
        is_lorom_address(pc_to_snes_spec(pc)),
        snes_to_pc_spec(pc_to_snes_spec(pc)) == pc,
{
    let a = pc_to_snes_spec(pc);
    assert(a / 0x10000 == pc / 0x8000 + 0x80 && a % 0x10000 == pc % 0x8000 + 0x8000) by (nonlinear_arith)
        requires
            a == (pc / 0x8000 + 0x80) * 0x10000 + pc % 0x8000 + 0x8000,
            0 <= pc < 0x40_0000,
    ;
    assert(pc == (pc / 0x8000) * 0x8000 + pc % 0x8000) by (nonlinear_arith)
        requires
            0 <= pc,
    ;
}

/// Bytes that store a tileset read back as that tileset.
pub proof fn lemma_tileset_at_bytes(rom: Seq<u8>, p: int, t: Tileset)
    requires
        t.valid(),
        0 <= p,
        p + TILESET_BYTES <= rom.len(),
        rom.subrange(p, p + TILESET_BYTES) == tileset_bytes(t),
    ensures
        tileset_at(rom, p) == Some(t),
{
    let b = tileset_bytes(t);
    assert forall|k: int| 0 <= k < 9 implies rom[p + k] == #[trigger] b[k] by {
        assert(rom.subrange(p, p + TILESET_BYTES)[k] == rom[p + k]);
    }
    lemma_pointer_round_trip(t.tile_table as int);
    lemma_pointer_round_trip(t.graphic as int);
    lemma_pointer_round_trip(t.palette as int);
    lemma_u24_bytes(pc_to_snes_spec(t.tile_table as int));
    lemma_u24_bytes(pc_to_snes_spec(t.graphic as int));
    lemma_u24_bytes(pc_to_snes_spec(t.palette as int));
    let b1 = u24_bytes(pc_to_snes_spec(t.tile_table as int));
    let b2 = u24_bytes(pc_to_snes_spec(t.graphic as int));
    let b3 = u24_bytes(pc_to_snes_spec(t.palette as int));
    assert(b == b1 + b2 + b3);
    assert(b[0] == b1[0] && b[1] == b1[1] && b[2] == b1[2]);
    assert(b[3] == b2[0] && b[4] == b2[1] && b[5] == b2[2]);
    assert(b[6] == b3[0] && b[7] == b3[1] && b[8] == b3[2]);
    assert(rom[p] == b[0] && rom[p + 1] == b[1] && rom[p + 2] == b[2]);
    assert(rom[p + 3] == b[3] && rom[p + 4] == b[4] && rom[p + 5] == b[5]);
    assert(rom[p + 6] == b[6] && rom[p + 7] == b[7] && rom[p + 8] == b[8]);
    assert(u24_at(rom, p) == pc_to_snes_spec(t.tile_table as int));
    assert(u24_at(rom, p + 3) == pc_to_snes_spec(t.graphic as int));
    assert(u24_at(rom, p + 6) == pc_to_snes_spec(t.palette as int));
}

/// Bytes that store a state read back as that state.
pub proof fn lemma_state_at_bytes(rom: Seq<u8>, p: int, s: State)
    requires
        s.level_address < LOROM_MAX_SIZE,
        0 <= p,
        p + STATE_BYTES <= rom.len(),
        rom.subrange(p, p + STATE_BYTES) == state_bytes(s),
    ensures
        state_at(rom, p) == Some(s),
{
    let b = state_bytes(s);
    assert forall|k: int| 0 <= k < 26 implies rom[p + k] == #[trigger] b[k] by {
        assert(rom.subrange(p, p + STATE_BYTES)[k] == rom[p + k]);
    }
    lemma_pointer_round_trip(s.level_address as int);
    lemma_u24_bytes(pc_to_snes_spec(s.level_address as int));
    let l = u24_bytes(pc_to_snes_spec(s.level_address as int));
    assert(b[0] == l[0] && b[1] == l[1] && b[2] == l[2]);
    assert(b[3] == s.tileset && b[4] == s.music_data && b[5] == s.music_track);
    assert(rom[p] == b[0] && rom[p + 1] == b[1] && rom[p + 2] == b[2]);
    assert(rom[p + 3] == b[3] && rom[p + 4] == b[4] && rom[p + 5] == b[5]);
    assert(b[6] == u16_bytes(s.fx as int)[0] && b[7] == u16_bytes(s.fx as int)[1]);
    assert(rom[p + 6] == b[6] && rom[p + 7] == b[7]);
    assert(u16_at(rom, p + 6) == s.fx);
    assert(b[8] == u16_bytes(s.enemy_population as int)[0] && b[9] == u16_bytes(s.enemy_population as int)[1]);
    assert(rom[p + 8] == b[8] && rom[p + 9] == b[9]);
    assert(u16_at(rom, p + 8) == s.enemy_population);
    assert(b[10] == u16_bytes(s.enemy_set as int)[0] && b[11] == u16_bytes(s.enemy_set as int)[1]);
    assert(rom[p + 10] == b[10] && rom[p + 11] == b[11]);
    assert(u16_at(rom, p + 10) == s.enemy_set);
    assert(b[12] == u16_bytes(s.layer2_scroll as int)[0] && b[13] == u16_bytes(s.layer2_scroll as int)[1]);
    assert(rom[p + 12] == b[12] && rom[p + 13] == b[13]);
    assert(u16_at(rom, p + 12) == s.layer2_scroll);
    assert(b[14] == u16_bytes(s.scroll as int)[0] && b[15] == u16_bytes(s.scroll as int)[1]);
    assert(rom[p + 14] == b[14] && rom[p + 15] == b[15]);
    assert(u16_at(rom, p + 14) == s.scroll);
    assert(b[16] == u16_bytes(s.special_xray as int)[0] && b[17] == u16_bytes(s.special_xray as int)[1]);
    assert(rom[p + 16] == b[16] && rom[p + 17] == b[17]);
    assert(u16_at(rom, p + 16) == s.special_xray);
    assert(b[18] == u16_bytes(s.main_asm as int)[0] && b[19] == u16_bytes(s.main_asm as int)[1]);
    assert(rom[p + 18] == b[18] && rom[p + 19] == b[19]);
    assert(u16_at(rom, p + 18) == s.main_asm);
    assert(b[20] == u16_bytes(s.plm_population as int)[0] && b[21] == u16_bytes(s.plm_population as int)[1]);
    assert(rom[p + 20] == b[20] && rom[p + 21] == b[21]);
    assert(u16_at(rom, p + 20) == s.plm_population);
    assert(b[22] == u16_bytes(s.library_background as int)[0] && b[23] == u16_bytes(s.library_background as int)[1]);
    assert(rom[p + 22] == b[22] && rom[p + 23] == b[23]);
    assert(u16_at(rom, p + 22) == s.library_background);
    assert(b[24] == u16_bytes(s.setup_asm as int)[0] && b[25] == u16_bytes(s.setup_asm as int)[1]);
    assert(rom[p + 24] == b[24] && rom[p + 25] == b[25]);
    assert(u16_at(rom, p + 24) == s.setup_asm);
    assert(u24_at(rom, p) == pc_to_snes_spec(s.level_address as int));
    lemma_u16_bytes(s.fx as int);
    lemma_u16_bytes(s.enemy_population as int);
    lemma_u16_bytes(s.enemy_set as int);
    lemma_u16_bytes(s.layer2_scroll as int);
    lemma_u16_bytes(s.scroll as int);
    lemma_u16_bytes(s.special_xray as int);
    lemma_u16_bytes(s.main_asm as int);
    lemma_u16_bytes(s.plm_population as int);
    lemma_u16_bytes(s.library_background as int);
    lemma_u16_bytes(s.setup_asm as int);
    assert(state_at(rom, p).unwrap() =~= s);
}

} // verus!

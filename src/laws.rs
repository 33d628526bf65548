//! Properties that relate several operations of the codec.
use vstd::prelude::*;
use crate::address_map::lemma_to_map_index;
use crate::compression::{decompress_spec, lemma_stream_frame, lemma_stream_len, stream_len};
use crate::palette::{lemma_palette_bytes_decode, palette_colors_wf, Palette};
use crate::gfx::Gfx;
use crate::tile_table::TileTable;
use crate::room::{state_at, tileset_at, State, STATE_BYTES, TILESET_BYTES};
use crate::level::{lemma_level_bytes_decode, LevelData};
use crate::save::{
    level_in_place, level_moves, level_room_apart, nothing_edited, palette_in_place, palette_moves,
    palette_room_apart, remapped, rewritten, saved, Remap,
};
use crate::room::Room;
use crate::super_metroid::{
    stream_at, gfx_with_cre_spec, listed_state, loaded_domains, unedited, used_graphic, used_level, used_palette,
    used_tile_table, SuperMetroid, TILESET_COUNT,
};

verus! {

/// An aggregate with no entity marked edited, per address, has none marked
/// edited per entry either, which is what a save without edits asks for.
pub proof fn lemma_unedited_entries(sm: SuperMetroid)
    requires
        sm.wf(),
        unedited(sm),
    ensures
        nothing_edited(sm),
{
    assert forall|p: int| 0 <= p < sm.palettes.entries@.len() implies !(#[trigger] sm.palettes.entries@[p]).1.edited by {
        lemma_to_map_index(sm.palettes.entries@, p);
        assert(sm.palettes@.contains_key(sm.palettes.entries@[p].0));
    }
    assert forall|p: int| 0 <= p < sm.levels.entries@.len() implies !(#[trigger] sm.levels.entries@[p]).1.edited by {
        lemma_to_map_index(sm.levels.entries@, p);
        assert(sm.levels@.contains_key(sm.levels.entries@[p].0));
    }
    assert forall|p: int| 0 <= p < sm.states.entries@.len() implies !(#[trigger] sm.states.entries@[p]).1.edited by {
        lemma_to_map_index(sm.states.entries@, p);
        assert(sm.states@.contains_key(sm.states.entries@[p].0));
    }
}

/// Two level data hold the same blocks, BTS bytes and kept bytes.
pub open spec fn same_level(x: LevelData, y: LevelData) -> bool {
    x.layer1@ == y.layer1@ && x.bts@ == y.bts@ && x.layer2@ == y.layer2@
}

/// What a load of `rom` gives: a well-formed, unedited aggregate of 29
/// tilesets that agrees with `rom` and holds exactly the addresses that `rom`
/// leads to.
pub open spec fn loaded_from(sm: SuperMetroid, rom: Seq<u8>) -> bool {
    &&& sm.wf()
    &&& sm.matches_rom()
    &&& unedited(sm)
    &&& sm.rom@ == rom
    &&& sm.tilesets@.len() == TILESET_COUNT
    &&& loaded_domains(sm, rom)
}

/// Two rooms with the same header and the same state list.
pub open spec fn same_room(x: Room, y: Room) -> bool {
    &&& x.index == y.index
    &&& x.area == y.area
    &&& x.x == y.x
    &&& x.y == y.y
    &&& x.width == y.width
    &&& x.height == y.height
    &&& x.up_scroller == y.up_scroller
    &&& x.down_scroller == y.down_scroller
    &&& x.cre_bitset == y.cre_bitset
    &&& x.door_list == y.door_list
    &&& x.state_conditions@ == y.state_conditions@
}

/// Two loads of the same image hold the same addresses and, at each, the
/// same entity. With `save_to_rom`, which on an unedited aggregate changes
/// nothing and moves nothing, this is the round trip load, save, load.
pub proof fn lemma_loads_agree(a: SuperMetroid, b: SuperMetroid, rom: Seq<u8>)
    requires
        loaded_from(a, rom),
        loaded_from(b, rom),
    ensures
        a.rooms@.dom() == b.rooms@.dom(),
        a.states@.dom() == b.states@.dom(),
        a.levels@.dom() == b.levels@.dom(),
        a.palettes@.dom() == b.palettes@.dom(),
        a.graphics@.dom() == b.graphics@.dom(),
        a.tile_tables@.dom() == b.tile_tables@.dom(),
        forall|k: usize| #[trigger] a.rooms@.contains_key(k) ==> same_room(a.rooms@[k], b.rooms@[k]),
        forall|k: usize| #[trigger]
            a.states@.contains_key(k) ==> a.states@[k].value == b.states@[k].value,
        forall|k: usize| #[trigger]
            a.levels@.contains_key(k) ==> same_level(a.levels@[k].value, b.levels@[k].value),
        forall|k: usize| #[trigger]
            a.palettes@.contains_key(k) ==> a.palettes@[k].value.colors@ == b.palettes@[k].value.colors@,
        forall|k: usize| #[trigger]
            a.graphics@.contains_key(k) ==> a.graphics@[k].pixels@ == b.graphics@[k].pixels@,
        forall|k: usize| #[trigger]
            a.tile_tables@.contains_key(k) ==> a.tile_tables@[k].entries@ == b.tile_tables@[k].entries@,
        a.tilesets@.len() == b.tilesets@.len(),
        forall|j: int| 0 <= j < a.tilesets@.len() ==> (#[trigger] a.tilesets@[j]).value == b.tilesets@[j].value,
{
    assert(a.rooms@.dom() =~= b.rooms@.dom());
    assert forall|k: usize| #[trigger] a.rooms@.contains_key(k) implies same_room(a.rooms@[k], b.rooms@[k]) by {
        assert(b.rooms@.contains_key(k));
    }
    assert forall|j: int| 0 <= j < a.tilesets@.len() implies (#[trigger] a.tilesets@[j]).value == b.tilesets@[j].value by {
        assert(!a.tilesets@[j].edited && !b.tilesets@[j].edited);
    }
    assert forall|k: usize| listed_state(a.rooms@, k) <==> listed_state(b.rooms@, k) by {
        if listed_state(a.rooms@, k) {
            let (r, i) = choose|r: usize, i: int|
                a.rooms@.contains_key(r) && 0 <= i < a.rooms@[r].state_conditions@.len() && (
                #[trigger] a.rooms@[r].state_conditions@[i]).state_address == k;
            assert(b.rooms@.contains_key(r));
            assert(b.rooms@[r].state_conditions@[i].state_address == k);
        }
        if listed_state(b.rooms@, k) {
            let (r, i) = choose|r: usize, i: int|
                b.rooms@.contains_key(r) && 0 <= i < b.rooms@[r].state_conditions@.len() && (
                #[trigger] b.rooms@[r].state_conditions@[i]).state_address == k;
            assert(a.rooms@.contains_key(r));
            assert(same_room(a.rooms@[r], b.rooms@[r]));
            assert(a.rooms@[r].state_conditions@[i].state_address == k);
        }
    }
    assert(a.states@.dom() =~= b.states@.dom());
    assert forall|k: usize| #[trigger] a.states@.contains_key(k) implies a.states@[k].value == b.states@[k].value by {
        assert(!a.states@[k].edited && !b.states@[k].edited);
    }
    assert forall|k: usize| used_level(a.states@, k) <==> used_level(b.states@, k) by {
        if used_level(a.states@, k) {
            let s0 = choose|s0: usize| #[trigger] a.states@.contains_key(s0) && a.states@[s0].value.level_address == k;
            assert(b.states@.contains_key(s0));
        }
        if used_level(b.states@, k) {
            let s0 = choose|s0: usize| #[trigger] b.states@.contains_key(s0) && b.states@[s0].value.level_address == k;
            assert(a.states@.contains_key(s0));
        }
    }
    assert(a.levels@.dom() =~= b.levels@.dom());
    assert forall|k: usize| #[trigger] a.levels@.contains_key(k) implies same_level(a.levels@[k].value, b.levels@[k].value) by {
        let (x, y) = (a.levels@[k].value, b.levels@[k].value);
        assert(b.levels@.contains_key(k));
        assert(!a.levels@[k].edited && !b.levels@[k].edited);
        lemma_level_bytes_decode(x.layer1@, x.bts@, x.layer2@);
        lemma_level_bytes_decode(y.layer1@, y.bts@, y.layer2@);
    }
    assert forall|k: usize|
        used_palette(a.tilesets@, k) == used_palette(b.tilesets@, k) && used_graphic(a.tilesets@, k)
            == used_graphic(b.tilesets@, k) && used_tile_table(a.tilesets@, k) == used_tile_table(
            b.tilesets@,
            k,
        ) by {
        if used_palette(a.tilesets@, k) {
            let q = choose|q: int| 0 <= q < a.tilesets@.len() && (#[trigger] a.tilesets@[q]).value.palette == k;
            assert(b.tilesets@[q].value.palette == k);
        }
        if used_palette(b.tilesets@, k) {
            let q = choose|q: int| 0 <= q < b.tilesets@.len() && (#[trigger] b.tilesets@[q]).value.palette == k;
            assert(a.tilesets@[q].value.palette == k);
        }
        if used_graphic(a.tilesets@, k) {
            let q = choose|q: int| 0 <= q < a.tilesets@.len() && (#[trigger] a.tilesets@[q]).value.graphic == k;
            assert(b.tilesets@[q].value.graphic == k);
        }
        if used_graphic(b.tilesets@, k) {
            let q = choose|q: int| 0 <= q < b.tilesets@.len() && (#[trigger] b.tilesets@[q]).value.graphic == k;
            assert(a.tilesets@[q].value.graphic == k);
        }
        if used_tile_table(a.tilesets@, k) {
            let q = choose|q: int| 0 <= q < a.tilesets@.len() && (#[trigger] a.tilesets@[q]).value.tile_table == k;
            assert(b.tilesets@[q].value.tile_table == k);
        }
        if used_tile_table(b.tilesets@, k) {
            let q = choose|q: int| 0 <= q < b.tilesets@.len() && (#[trigger] b.tilesets@[q]).value.tile_table == k;
            assert(a.tilesets@[q].value.tile_table == k);
        }
    }
    assert(a.palettes@.dom() =~= b.palettes@.dom());
    assert(a.graphics@.dom() =~= b.graphics@.dom());
    assert(a.tile_tables@.dom() =~= b.tile_tables@.dom());
    assert forall|k: usize| #[trigger] a.palettes@.contains_key(k) implies a.palettes@[k].value.colors@ == b.palettes@[k].value.colors@ by {
        assert(!a.palettes@[k].edited && !b.palettes@[k].edited);
    }
}

/// An edited palette is written where the returned maps say: at the end of
/// the image when it grew, else in place, where its room meets no other room
/// written in place. Reading the saved image there gives the edited colors.
pub proof fn lemma_edited_palette_reloads(
    old: SuperMetroid,
    new: SuperMetroid,
    remap: Remap,
    p: int,
    again: SuperMetroid,
)
    requires
        old.wf(),
        saved(old, new, remap),
        0 <= p < old.palettes.entries@.len(),
        old.palettes.entries@[p].1.edited,
        palette_moves(old.palettes.entries@[p].1) || palette_room_apart(old, p),
        again.matches_rom(),
        unedited(again),
        again.rom@ == new.rom@,
        again.palettes@.contains_key(new.palettes.entries@[p].0),
    ensures
        new.palettes.entries@[p].0 == remapped(remap.palettes@, old.palettes.entries@[p].0),
        again.palettes@[new.palettes.entries@[p].0].value.colors@
            == old.palettes.entries@[p].1.value.colors@,
{
    let k = new.palettes.entries@[p].0;
    let colors = old.palettes.entries@[p].1.value.colors@;
    lemma_to_map_index(old.palettes.entries@, p);
    assert(old.palettes@.contains_key(old.palettes.entries@[p].0));
    assert(palette_colors_wf(colors));
    lemma_palette_bytes_decode(colors);
    assert(!again.palettes@[k].edited);
    if !palette_moves(old.palettes.entries@[p].1) {
        assert(palette_in_place(old.palettes.entries@[p].1));
    }
}

/// Edited level data is written where the returned maps say: at the end of
/// the image when it grew, else in place, where its room meets no other
/// level data written in place. Reading the saved image there gives it back
/// as edited.
pub proof fn lemma_edited_level_reloads(
    old: SuperMetroid,
    new: SuperMetroid,
    remap: Remap,
    p: int,
    again: SuperMetroid,
)
    requires
        old.wf(),
        saved(old, new, remap),
        0 <= p < old.levels.entries@.len(),
        old.levels.entries@[p].1.edited,
        level_moves(old.levels.entries@[p].1) || level_room_apart(old, p),
        again.wf(),
        again.matches_rom(),
        unedited(again),
        again.rom@ == new.rom@,
        again.levels@.contains_key(new.levels.entries@[p].0),
    ensures
        new.levels.entries@[p].0 == remapped(remap.levels@, old.levels.entries@[p].0),
        same_level(again.levels@[new.levels.entries@[p].0].value, old.levels.entries@[p].1.value),
{
    let k = new.levels.entries@[p].0;
    let v = old.levels.entries@[p].1.value;
    lemma_to_map_index(old.levels.entries@, p);
    assert(old.levels@.contains_key(old.levels.entries@[p].0));
    assert(!again.levels@[k].edited);
    let w = again.levels@[k].value;
    lemma_level_bytes_decode(v.layer1@, v.bts@, v.layer2@);
    lemma_level_bytes_decode(w.layer1@, w.bts@, w.layer2@);
    if !level_moves(old.levels.entries@[p].1) {
        assert(level_in_place(old.levels.entries@[p].1));
    }
}

/// Every byte of the compressed stream at `a` in `old`'s image is one that a
/// save of `old` moving what `remap` holds does not write in place.
pub open spec fn stream_untouched(old: SuperMetroid, remap: Remap, a: int) -> bool {
    let s = old.rom@.subrange(a, old.rom@.len() as int);
    &&& 0 <= a <= old.rom@.len()
    &&& decompress_spec(s) is Some
    &&& forall|x: int|
        a <= x < a + stream_len(s, Seq::empty()).unwrap() ==> !rewritten(old, remap, x)
}

/// A save keeps every compressed stream whose bytes it does not write: the
/// graphics, the tile tables, and the palettes and level data left as they
/// were still decode from the saved image as before.
pub proof fn lemma_saved_keeps_stream(old: SuperMetroid, new: SuperMetroid, remap: Remap, a: int)
    requires
        saved(old, new, remap),
        stream_untouched(old, remap, a),
    ensures
        stream_at(new.rom@, a) == stream_at(old.rom@, a),
{
    let s = old.rom@.subrange(a, old.rom@.len() as int);
    let t = new.rom@.subrange(a, new.rom@.len() as int);
    lemma_stream_len(s, Seq::empty());
    let m = stream_len(s, Seq::empty()).unwrap();
    assert forall|k: int| 0 <= k < m implies t.subrange(0, m)[k] == s.subrange(0, m)[k] by {
        assert(!rewritten(old, remap, a + k));
        assert(new.rom@[a + k] == old.rom@[a + k]);
    }
    assert(t.subrange(0, m) =~= s.subrange(0, m));
    lemma_stream_frame(s, t, Seq::empty());
}

/// A save keeps every record whose bytes it does not write: a state or a
/// tileset record there reads back as before.
pub proof fn lemma_saved_keeps_record(old: SuperMetroid, new: SuperMetroid, remap: Remap, lo: int, n: int)
    requires
        saved(old, new, remap),
        0 <= lo,
        0 <= n,
        lo + n <= old.rom@.len(),
        forall|x: int| lo <= x < lo + n ==> !rewritten(old, remap, x),
    ensures
        new.rom@.subrange(lo, lo + n) == old.rom@.subrange(lo, lo + n),
        n == STATE_BYTES ==> state_at(new.rom@, lo) == state_at(old.rom@, lo),
        n == TILESET_BYTES ==> tileset_at(new.rom@, lo) == tileset_at(old.rom@, lo),
{
    assert forall|k: int| lo <= k < lo + n implies #[trigger] new.rom@[k] == old.rom@[k] by {
        assert(!rewritten(old, remap, k));
    }
    assert(new.rom@.subrange(lo, lo + n) =~= old.rom@.subrange(lo, lo + n));
}

/// The palette that a state shows: that of its tileset.
pub open spec fn shown_palette(sm: SuperMetroid, s: State) -> Palette {
    sm.palettes@[sm.tilesets@[s.tileset as int].value.palette].value
}

/// The graphics that a state shows: those of its tileset.
pub open spec fn shown_graphics(sm: SuperMetroid, s: State) -> Gfx {
    sm.graphics@[sm.tilesets@[s.tileset as int].value.graphic]
}

/// The tile table that a state shows: that of its tileset.
pub open spec fn shown_tile_table(sm: SuperMetroid, s: State) -> TileTable {
    sm.tile_tables@[sm.tilesets@[s.tileset as int].value.tile_table]
}

/// Two states with the same tileset show the same palette, graphics and tile
/// table; once that tileset points at the palette at `addr`, both show it.
pub proof fn lemma_tileset_sharing(sm: SuperMetroid, s1: State, s2: State, addr: usize)
    requires
        sm.wf(),
        s1.tileset == s2.tileset,
        (s1.tileset as int) < sm.tilesets@.len(),
        sm.tilesets@[s1.tileset as int].value.palette == addr,
    ensures
        shown_palette(sm, s1) == shown_palette(sm, s2),
        shown_graphics(sm, s1) == shown_graphics(sm, s2),
        shown_tile_table(sm, s1) == shown_tile_table(sm, s2),
        shown_palette(sm, s1) == sm.palettes@[addr].value,
        sm.palettes@.contains_key(addr),
{
    assert(sm.tilesets@[s1.tileset as int].value.valid());
}

/// Merging the common graphics depends on the aggregate and the address
/// alone: two results for the same aggregate and address are equal.
pub proof fn lemma_gfx_with_cre_deterministic(sm: SuperMetroid, addr: usize, g1: Gfx, g2: Gfx)
    requires
        g1.pixels@ == gfx_with_cre_spec(sm, addr),
        g2.pixels@ == gfx_with_cre_spec(sm, addr),
    ensures
        g1.pixels@ == g2.pixels@,
{
}

} // verus!

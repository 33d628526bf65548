//! Writing edited entities back into the image.
use vstd::prelude::*;
use crate::address::{write_bytes, LOROM_MAX_SIZE};
use crate::address_map::{
    lemma_same_keys, lemma_to_map_dom, lemma_to_map_index, lemma_to_map_update, to_map, AddressMap,
};
use crate::compression::{compress, compress_spec, decompress_spec};
use crate::level::{level_bytes, LevelData};
use crate::palette::{palette_bytes, serialize_palette, Palette};
use crate::room::{
    lemma_state_at_bytes, lemma_tileset_at_bytes, state_at, state_bytes, tileset_at, tileset_bytes, State,
    Tileset, STATE_BYTES, TILESET_BYTES,
};
use crate::super_metroid::{stream_at, SaveError, Stored, SuperMetroid, TILESET_TABLE_PC};

verus! {

/// Where `a` went: its new address if `remap` moved it, else itself.
pub open spec fn remapped(remap: Map<usize, usize>, a: usize) -> usize {
    if remap.contains_key(a) {
        remap[a]
    } else {
        a
    }
}

/// Bytes appended for entries `0 .. i`: the encoding of each edited entity
/// that does not fit the room it has.
pub open spec fn spill<T>(enc: Seq<Vec<u8>>, entries: Seq<(usize, Stored<T>)>, i: int) -> int
    decreases i,
{
    if i <= 0 {
        0
    } else {
        spill(enc, entries, i - 1) + if entries[i - 1].1.edited && enc[i - 1]@.len() > entries[
            i - 1].1.size {
            enc[i - 1]@.len() as int
        } else {
            0int
        }
    }
}

proof fn lemma_spill_zero<T>(enc: Seq<Vec<u8>>, entries: Seq<(usize, Stored<T>)>, i: int)
    requires
        0 <= i <= entries.len(),
        forall|k: int| 0 <= k < entries.len() ==> !(#[trigger] entries[k]).1.edited,
    ensures
        spill(enc, entries, i) == 0,
    decreases i,
{
    if i > 0 {
        lemma_spill_zero(enc, entries, i - 1);
    }
}

proof fn lemma_spill_monotone<T>(enc: Seq<Vec<u8>>, entries: Seq<(usize, Stored<T>)>, i: int, j: int)
    requires
        0 <= i <= j,
    ensures
        0 <= spill(enc, entries, i) <= spill(enc, entries, j),
    decreases j,
{
    if i < j {
        lemma_spill_monotone(enc, entries, i, j - 1);
    } else if i > 0 {
        lemma_spill_monotone(enc, entries, i - 1, i - 1);
    }
}

/// The maps of old addresses to new ones that a save made, one per kind of
/// entity that can move.
pub struct Remap {
    pub palettes: AddressMap<usize>,
    pub levels: AddressMap<usize>,
}

impl Remap {
    /// Nothing moved.
    pub open spec fn is_empty(&self) -> bool {
        self.palettes@ == Map::<usize, usize>::empty() && self.levels@ == Map::<
            usize,
            usize,
        >::empty()
    }

    /// Where the palette that was at `addr` is now.
    pub fn palette_address(&self, addr: usize) -> (r: usize)
        requires
            self.palettes.wf(),
        ensures
            r == remapped(self.palettes@, addr),
    {
        match self.palettes.get(addr) {
            Some(a) => *a,
            None => addr,
        }
    }

    /// Where the level data that was at `addr` is now.
    pub fn level_address(&self, addr: usize) -> (r: usize)
        requires
            self.levels.wf(),
        ensures
            r == remapped(self.levels@, addr),
    {
        match self.levels.get(addr) {
            Some(a) => *a,
            None => addr,
        }
    }
}

/// The compressed bytes that store a palette.
pub open spec fn palette_encoding(e: Stored<Palette>) -> Seq<u8> {
    compress_spec(palette_bytes(e.value.colors@))
}

/// The compressed bytes that store level data.
pub open spec fn level_encoding(e: Stored<LevelData>) -> Seq<u8> {
    compress_spec(level_bytes(e.value.layer1@, e.value.bts@, e.value.layer2@))
}

/// An edited palette whose encoding does not fit the room it has.
pub open spec fn palette_moves(e: Stored<Palette>) -> bool {
    e.edited && palette_encoding(e).len() > e.size
}

/// Edited level data whose encoding does not fit the room it has.
pub open spec fn level_moves(e: Stored<LevelData>) -> bool {
    e.edited && level_encoding(e).len() > e.size
}

/// Bytes that entries `0 .. i` of `encs` take at the end of the image: the
/// encoding of each edited entity that does not fit its room.
pub open spec fn spill_seq<T>(encs: Seq<Seq<u8>>, entries: Seq<(usize, Stored<T>)>, i: int) -> int
    decreases i,
{
    if i <= 0 {
        0
    } else {
        spill_seq(encs, entries, i - 1) + if entries[i - 1].1.edited && encs[i - 1].len()
            > entries[i - 1].1.size {
            encs[i - 1].len() as int
        } else {
            0int
        }
    }
}

/// Bytes that a save of `sm` appends to the image.
pub open spec fn relocated_bytes(sm: SuperMetroid) -> int {
    let p = sm.palettes.entries@;
    let l = sm.levels.entries@;
    spill_seq(Seq::new(p.len(), |k: int| palette_encoding(p[k].1)), p, p.len() as int) + spill_seq(
        Seq::new(l.len(), |k: int| level_encoding(l[k].1)),
        l,
        l.len() as int,
    )
}

proof fn lemma_spill_matches<T>(enc: Seq<Vec<u8>>, encs: Seq<Seq<u8>>, entries: Seq<(usize, Stored<T>)>, i: int)
    requires
        0 <= i <= enc.len(),
        enc.len() == encs.len(),
        encs.len() == entries.len(),
        forall|k: int| 0 <= k < i && (#[trigger] entries[k]).1.edited ==> enc[k]@ == encs[k],
    ensures
        spill(enc, entries, i) == spill_seq(encs, entries, i),
    decreases i,
{
    if i > 0 {
        lemma_spill_matches(enc, encs, entries, i - 1);
    }
}

/// The compressed encodings of the edited palettes, position by position;
/// empty for the others.
fn encode_palettes(m: &AddressMap<Stored<Palette>>) -> (r: Vec<Vec<u8>>)
    requires
        forall|i: int| 0 <= i < m.entries@.len() ==> (#[trigger] m.entries@[i]).1.value.wf(),
    ensures
        r@.len() == m.entries@.len(),
        forall|i: int|
            0 <= i < r@.len() && (#[trigger] m.entries@[i]).1.edited ==> forall|t: Seq<u8>|
                #[trigger] decompress_spec(r@[i]@ + t) == Some(
                    palette_bytes(m.entries@[i].1.value.colors@),
                ),
        forall|i: int|
            0 <= i < r@.len() && (#[trigger] m.entries@[i]).1.edited ==> r@[i]@ == palette_encoding(
                m.entries@[i].1,
            ),
        forall|i: int|
            0 <= i < r@.len() && !(#[trigger] m.entries@[i]).1.edited ==> r@[i]@.len() == 0,
{
    let mut r: Vec<Vec<u8>> = Vec::new();
    let mut i: usize = 0;
    while i < m.entries.len()
        invariant
            i <= m.entries@.len(),
            r@.len() == i,
            forall|i: int| 0 <= i < m.entries@.len() ==> (#[trigger] m.entries@[i]).1.value.wf(),
            forall|k: int|
                0 <= k < i && (#[trigger] m.entries@[k]).1.edited ==> forall|t: Seq<u8>|
                    #[trigger] decompress_spec(r@[k]@ + t) == Some(
                        palette_bytes(m.entries@[k].1.value.colors@),
                    ),
            forall|k: int|
                0 <= k < i && (#[trigger] m.entries@[k]).1.edited ==> r@[k]@ == palette_encoding(
                    m.entries@[k].1,
                ),
            forall|k: int| 0 <= k < i && !(#[trigger] m.entries@[k]).1.edited ==> r@[k]@.len() == 0,
        decreases m.entries@.len() - i,
    {
        if m.entries[i].1.edited {
            assert(m.entries@[i as int].1.value.wf());
            let raw = serialize_palette(&m.entries[i].1.value);
            r.push(compress(raw.as_slice()));
        } else {
            r.push(Vec::new());
        }
        i += 1;
    }
    r
}

/// The compressed encodings of the edited level data, position by position;
/// empty for the others.
fn encode_levels(m: &AddressMap<Stored<LevelData>>) -> (r: Vec<Vec<u8>>)
    requires
        forall|i: int|
            0 <= i < m.entries@.len() ==> (#[trigger] m.entries@[i]).1.value.wf()
                && m.entries@[i].1.value.layer1@.len() <= 0x7FFF,
    ensures
        r@.len() == m.entries@.len(),
        forall|i: int|
            0 <= i < r@.len() && (#[trigger] m.entries@[i]).1.edited ==> forall|t: Seq<u8>|
                #[trigger] decompress_spec(r@[i]@ + t) == Some(
                    level_bytes(
                        m.entries@[i].1.value.layer1@,
                        m.entries@[i].1.value.bts@,
                        m.entries@[i].1.value.layer2@,
                    ),
                ),
        forall|i: int|
            0 <= i < r@.len() && (#[trigger] m.entries@[i]).1.edited ==> r@[i]@ == level_encoding(
                m.entries@[i].1,
            ),
        forall|i: int|
            0 <= i < r@.len() && !(#[trigger] m.entries@[i]).1.edited ==> r@[i]@.len() == 0,
{
    let mut r: Vec<Vec<u8>> = Vec::new();
    let mut i: usize = 0;
    while i < m.entries.len()
        invariant
            i <= m.entries@.len(),
            r@.len() == i,
            forall|i: int|
                0 <= i < m.entries@.len() ==> (#[trigger] m.entries@[i]).1.value.wf()
                    && m.entries@[i].1.value.layer1@.len() <= 0x7FFF,
            forall|k: int|
                0 <= k < i && (#[trigger] m.entries@[k]).1.edited ==> forall|t: Seq<u8>|
                    #[trigger] decompress_spec(r@[k]@ + t) == Some(
                        level_bytes(
                            m.entries@[k].1.value.layer1@,
                            m.entries@[k].1.value.bts@,
                            m.entries@[k].1.value.layer2@,
                        ),
                    ),
            forall|k: int|
                0 <= k < i && (#[trigger] m.entries@[k]).1.edited ==> r@[k]@ == level_encoding(
                    m.entries@[k].1,
                ),
            forall|k: int| 0 <= k < i && !(#[trigger] m.entries@[k]).1.edited ==> r@[k]@.len() == 0,
        decreases m.entries@.len() - i,
    {
        if m.entries[i].1.edited {
            assert(m.entries@[i as int].1.value.wf());
            let raw = m.entries[i].1.value.to_bytes();
            r.push(compress(raw.as_slice()));
        } else {
            r.push(Vec::new());
        }
        i += 1;
    }
    r
}

/// The total of `spill` over all entries, or `None` once it passes `limit`.
fn spill_total<T>(enc: &Vec<Vec<u8>>, entries: &Vec<(usize, Stored<T>)>, limit: usize) -> (r: Option<
    usize,
>)
    requires
        enc@.len() == entries@.len(),
    ensures
        r.is_some() <==> spill(enc@, entries@, enc@.len() as int) <= limit,
        r.is_some() ==> r.unwrap() == spill(enc@, entries@, enc@.len() as int),
{
    let mut total: usize = 0;
    let mut i: usize = 0;
    while i < enc.len()
        invariant
            enc@.len() == entries@.len(),
            i <= enc@.len(),
            total == spill(enc@, entries@, i as int),
            total <= limit,
        decreases enc@.len() - i,
    {
        if entries[i].1.edited && enc[i].len() > entries[i].1.size {
            if enc[i].len() > limit - total {
                proof {
                    lemma_spill_monotone(enc@, entries@, i as int + 1, enc@.len() as int);
                }
                return None;
            }
            total = total + enc[i].len();
        }
        i += 1;
    }
    Some(total)
}

/// Appends `b` to `rom`.
fn append(rom: &mut Vec<u8>, b: &Vec<u8>)
    ensures
        final(rom)@ == old(rom)@ + b@,
{
    let mut k: usize = 0;
    while k < b.len()
        invariant
            k <= b@.len(),
            rom@ == old(rom)@ + b@.subrange(0, k as int),
        decreases b@.len() - k,
    {
        rom.push(b[k]);
        k += 1;
        assert(rom@ =~= old(rom)@ + b@.subrange(0, k as int));
    }
    assert(b@.subrange(0, k as int) =~= b@);
}


/// Whether entry `i` does not fit its room and moves to the end of the image.
pub open spec fn moves<T>(enc: Seq<Vec<u8>>, entries: Seq<(usize, Stored<T>)>, i: int) -> bool {
    entries[i].1.edited && enc[i]@.len() > entries[i].1.size
}

/// The state of a palette save after entries `0 .. i`: `sm` and `remap` from
/// `orig`, with encodings `enc` and in-place writes kept below `base`.
pub open spec fn palettes_stored(
    sm: SuperMetroid,
    remap: AddressMap<usize>,
    enc: Seq<Vec<u8>>,
    orig: SuperMetroid,
    base: int,
    i: int,
) -> bool {
    let n = enc.len() as int;
    let old_entries = orig.palettes.entries@;
    let old_tilesets = orig.tilesets@;
    let old_len = orig.rom@.len();
    &&& 0 <= i <= n
    &&& sm.wf()
    &&& remap.wf()
    &&& sm.palettes.entries@.len() == n
    &&& sm.rom@.len() == old_len + spill(enc, old_entries, i)
    &&& forall|k: int| 0 <= k < old_len ==> sm.rom@[k] == orig.rom@[k]
    &&& forall|k: int| i <= k < n ==> #[trigger] sm.palettes.entries@[k] == old_entries[k]
    &&& forall|k: int|
        0 <= k < i ==> {
            let o = old_entries[k];
            let f = #[trigger] sm.palettes.entries@[k];
            &&& f.1.value == o.1.value
            &&& f.1.edited == (o.1.edited && !moves(enc, old_entries, k))
            &&& moves(enc, old_entries, k) ==> {
                &&& remap@.contains_key(o.0)
                &&& remap@[o.0] == f.0
                &&& old_len <= f.0
                &&& f.0 + enc[k]@.len() <= sm.rom@.len()
                &&& sm.rom@.subrange(f.0 as int, f.0 + enc[k]@.len()) == enc[k]@
                &&& f.1.size == enc[k]@.len()
            }
            &&& !moves(enc, old_entries, k) ==> f.0 == o.0 && f.1.size == o.1.size
                && !remap@.contains_key(o.0)
        }
    &&& forall|k: usize| #[trigger] remap@.contains_key(k) ==> old_len <= remap@[k]
    &&& forall|k: usize| #[trigger]
        remap@.contains_key(k) ==> exists|j: int| 0 <= j < i && old_entries[j].0 == k
    &&& sm.tilesets@.len() == old_tilesets.len()
    &&& forall|j: int|
        0 <= j < old_tilesets.len() ==> {
            let o = old_tilesets[j];
            let f = #[trigger] sm.tilesets@[j];
            &&& f.value == Tileset { palette: remapped(remap@, o.value.palette), ..o.value }
            &&& f.edited == (o.edited || remap@.contains_key(o.value.palette))
            &&& f.size == o.size
        }
    &&& sm.rooms == orig.rooms
    &&& sm.states == orig.states
    &&& sm.graphics == orig.graphics
    &&& sm.tile_tables == orig.tile_tables
    &&& sm.levels == orig.levels
    &&& (forall|k: int| 0 <= k < i ==> !(#[trigger] old_entries[k]).1.edited) ==> sm == orig
        && remap@ == Map::<usize, usize>::empty()
}

/// What a palette save needs of its input.
pub open spec fn palette_save_ready(enc: Seq<Vec<u8>>, orig: SuperMetroid, base: int) -> bool {
    &&& orig.wf()
    &&& enc.len() == orig.palettes.entries@.len()
    &&& orig.rom@.len() + spill(enc, orig.palettes.entries@, enc.len() as int) <= LOROM_MAX_SIZE
    &&& base <= orig.rom@.len()
    &&& forall|i: int|
        0 <= i < enc.len() ==> (#[trigger] orig.palettes.entries@[i]).0
            + orig.palettes.entries@[i].1.size <= base
}

/// The state of a level save after entries `0 .. i`: `sm` and `remap` from
/// `orig`, with encodings `enc` and in-place writes kept below `base`.
pub open spec fn levels_stored(
    sm: SuperMetroid,
    remap: AddressMap<usize>,
    enc: Seq<Vec<u8>>,
    orig: SuperMetroid,
    base: int,
    i: int,
) -> bool {
    let n = enc.len() as int;
    let old_entries = orig.levels.entries@;
    let old_states = orig.states.entries@;
    let old_len = orig.rom@.len();
    &&& 0 <= i <= n
    &&& sm.wf()
    &&& remap.wf()
    &&& sm.levels.entries@.len() == n
    &&& sm.rom@.len() == old_len + spill(enc, old_entries, i)
    &&& forall|k: int| 0 <= k < old_len ==> sm.rom@[k] == orig.rom@[k]
    &&& forall|k: int| i <= k < n ==> #[trigger] sm.levels.entries@[k] == old_entries[k]
    &&& forall|k: int|
        0 <= k < i ==> {
            let o = old_entries[k];
            let f = #[trigger] sm.levels.entries@[k];
            &&& f.1.value == o.1.value
            &&& f.1.edited == (o.1.edited && !moves(enc, old_entries, k))
            &&& moves(enc, old_entries, k) ==> {
                &&& remap@.contains_key(o.0)
                &&& remap@[o.0] == f.0
                &&& old_len <= f.0
                &&& f.0 + enc[k]@.len() <= sm.rom@.len()
                &&& sm.rom@.subrange(f.0 as int, f.0 + enc[k]@.len()) == enc[k]@
                &&& f.1.size == enc[k]@.len()
            }
            &&& !moves(enc, old_entries, k) ==> f.0 == o.0 && f.1.size == o.1.size
                && !remap@.contains_key(o.0)
        }
    &&& forall|k: usize| #[trigger] remap@.contains_key(k) ==> old_len <= remap@[k]
    &&& forall|k: usize| #[trigger]
        remap@.contains_key(k) ==> exists|j: int| 0 <= j < i && old_entries[j].0 == k
    &&& sm.states.entries@.len() == old_states.len()
    &&& forall|j: int|
        0 <= j < old_states.len() ==> {
            let o = old_states[j];
            let f = #[trigger] sm.states.entries@[j];
            &&& f.0 == o.0
            &&& f.1.value == State { level_address: remapped(remap@, o.1.value.level_address), ..o.1.value }
            &&& f.1.edited == (o.1.edited || remap@.contains_key(o.1.value.level_address))
            &&& f.1.size == o.1.size
        }
    &&& sm.rooms == orig.rooms
    &&& sm.tilesets == orig.tilesets
    &&& sm.graphics == orig.graphics
    &&& sm.tile_tables == orig.tile_tables
    &&& sm.palettes == orig.palettes
    &&& (forall|k: int| 0 <= k < i ==> !(#[trigger] old_entries[k]).1.edited) ==> sm == orig
        && remap@ == Map::<usize, usize>::empty()
}

/// What a level save needs of its input.
pub open spec fn level_save_ready(enc: Seq<Vec<u8>>, orig: SuperMetroid, base: int) -> bool {
    &&& orig.wf()
    &&& enc.len() == orig.levels.entries@.len()
    &&& orig.rom@.len() + spill(enc, orig.levels.entries@, enc.len() as int) <= LOROM_MAX_SIZE
    &&& base <= orig.rom@.len()
    &&& forall|i: int|
        0 <= i < enc.len() ==> (#[trigger] orig.levels.entries@[i]).0
            + orig.levels.entries@[i].1.size <= base
}

proof fn lemma_palettes_stored_intro(
    sm: SuperMetroid,
    remap: AddressMap<usize>,
    enc: Seq<Vec<u8>>,
    orig: SuperMetroid,
    base: int,
    i: int,
)
    requires
        0 <= i <= (enc.len() as int),
        sm.wf(),
        remap.wf(),
        sm.palettes.entries@.len() == (enc.len() as int),
        sm.rom@.len() == (orig.rom@.len()) + spill(enc, (orig.palettes.entries@), i),
        forall|k: int| 0 <= k < (orig.rom@.len()) ==> sm.rom@[k] == orig.rom@[k],
        forall|k: int| i <= k < (enc.len() as int) ==> #[trigger] sm.palettes.entries@[k] == (orig.palettes.entries@)[k],
        forall|k: int|
        0 <= k < i ==> {
            let o = (orig.palettes.entries@)[k];
            let f = #[trigger] sm.palettes.entries@[k];
            &&& f.1.value == o.1.value
            &&& f.1.edited == (o.1.edited && !moves(enc, (orig.palettes.entries@), k))
            &&& moves(enc, (orig.palettes.entries@), k) ==> {
                &&& remap@.contains_key(o.0)
                &&& remap@[o.0] == f.0
                &&& (orig.rom@.len()) <= f.0
                &&& f.0 + enc[k]@.len() <= sm.rom@.len()
                &&& sm.rom@.subrange(f.0 as int, f.0 + enc[k]@.len()) == enc[k]@
                &&& f.1.size == enc[k]@.len()
            }
            &&& !moves(enc, (orig.palettes.entries@), k) ==> f.0 == o.0 && f.1.size == o.1.size
                && !remap@.contains_key(o.0)
        },
        forall|k: usize| #[trigger] remap@.contains_key(k) ==> (orig.rom@.len()) <= remap@[k],
        forall|k: usize| #[trigger]
        remap@.contains_key(k) ==> exists|j: int| 0 <= j < i && (orig.palettes.entries@)[j].0 == k,
        sm.tilesets@.len() == (orig.tilesets@).len(),
        forall|j: int|
        0 <= j < (orig.tilesets@).len() ==> {
            let o = (orig.tilesets@)[j];
            let f = #[trigger] sm.tilesets@[j];
            &&& f.value == Tileset { palette: remapped(remap@, o.value.palette), ..o.value }
            &&& f.edited == (o.edited || remap@.contains_key(o.value.palette))
            &&& f.size == o.size
        },
        sm.rooms == orig.rooms,
        sm.states == orig.states,
        sm.graphics == orig.graphics,
        sm.tile_tables == orig.tile_tables,
        sm.levels == orig.levels,
        (forall|k: int| 0 <= k < i ==> !(#[trigger] (orig.palettes.entries@)[k]).1.edited) ==> sm == orig
        && remap@ == Map::<usize, usize>::empty(),
    ensures
        palettes_stored(sm, remap, enc, orig, base, i),
{
}

proof fn lemma_levels_stored_intro(
    sm: SuperMetroid,
    remap: AddressMap<usize>,
    enc: Seq<Vec<u8>>,
    orig: SuperMetroid,
    base: int,
    i: int,
)
    requires
        0 <= i <= (enc.len() as int),
        sm.wf(),
        remap.wf(),
        sm.levels.entries@.len() == (enc.len() as int),
        sm.rom@.len() == (orig.rom@.len()) + spill(enc, (orig.levels.entries@), i),
        forall|k: int| 0 <= k < (orig.rom@.len()) ==> sm.rom@[k] == orig.rom@[k],
        forall|k: int| i <= k < (enc.len() as int) ==> #[trigger] sm.levels.entries@[k] == (orig.levels.entries@)[k],
        forall|k: int|
        0 <= k < i ==> {
            let o = (orig.levels.entries@)[k];
            let f = #[trigger] sm.levels.entries@[k];
            &&& f.1.value == o.1.value
            &&& f.1.edited == (o.1.edited && !moves(enc, (orig.levels.entries@), k))
            &&& moves(enc, (orig.levels.entries@), k) ==> {
                &&& remap@.contains_key(o.0)
                &&& remap@[o.0] == f.0
                &&& (orig.rom@.len()) <= f.0
                &&& f.0 + enc[k]@.len() <= sm.rom@.len()
                &&& sm.rom@.subrange(f.0 as int, f.0 + enc[k]@.len()) == enc[k]@
                &&& f.1.size == enc[k]@.len()
            }
            &&& !moves(enc, (orig.levels.entries@), k) ==> f.0 == o.0 && f.1.size == o.1.size
                && !remap@.contains_key(o.0)
        },
        forall|k: usize| #[trigger] remap@.contains_key(k) ==> (orig.rom@.len()) <= remap@[k],
        forall|k: usize| #[trigger]
        remap@.contains_key(k) ==> exists|j: int| 0 <= j < i && (orig.levels.entries@)[j].0 == k,
        sm.states.entries@.len() == (orig.states.entries@).len(),
        forall|j: int|
        0 <= j < (orig.states.entries@).len() ==> {
            let o = (orig.states.entries@)[j];
            let f = #[trigger] sm.states.entries@[j];
            &&& f.0 == o.0
            &&& f.1.value == State { level_address: remapped(remap@, o.1.value.level_address), ..o.1.value }
            &&& f.1.edited == (o.1.edited || remap@.contains_key(o.1.value.level_address))
            &&& f.1.size == o.1.size
        },
        sm.rooms == orig.rooms,
        sm.tilesets == orig.tilesets,
        sm.graphics == orig.graphics,
        sm.tile_tables == orig.tile_tables,
        sm.palettes == orig.palettes,
        (forall|k: int| 0 <= k < i ==> !(#[trigger] (orig.levels.entries@)[k]).1.edited) ==> sm == orig
        && remap@ == Map::<usize, usize>::empty(),
    ensures
        levels_stored(sm, remap, enc, orig, base, i),
{
}

impl SuperMetroid {
    /// Moves palette entry `i` to the end of the image if it was edited and
    /// its encoding does not fit its room; one that fits stays marked edited.
    #[verifier::spinoff_prover]
    #[verifier::rlimit(100)]
    fn store_palette_at(
        &mut self,
        enc: &Vec<Vec<u8>>,
        remap: &mut AddressMap<usize>,
        i: usize,
        base: Ghost<int>,
        orig: Ghost<SuperMetroid>,
    )
        requires
            palette_save_ready(enc@, orig@, base@),
            palettes_stored(*old(self), *old(remap), enc@, orig@, base@, i as int),
            i < enc@.len(),
        ensures
            palettes_stored(*final(self), *final(remap), enc@, orig@, base@, i + 1),
    {
        let ghost old_entries = orig@.palettes.entries@;
        let ghost old_len = orig@.rom@.len();
        proof {
            lemma_spill_monotone(enc@, old_entries, i + 1, enc@.len() as int);
            assert(self.palettes.entries@[i as int] == old_entries[i as int]);
            lemma_to_map_index(self.palettes.entries@, i as int);
        }
        let a = self.palettes.entries[i].0;
        proof {
            assert(orig@.palettes.wf());
            lemma_to_map_index(old_entries, i as int);
            assert(orig@.palettes@.contains_key(a));
            assert(a < old_len);
        }
        let size = self.palettes.entries[i].1.size;
        if !self.palettes.entries[i].1.edited || enc[i].len() <= size {
            proof {
                assert forall|k: usize| #[trigger] remap@.contains_key(k) implies k != a by {
                    let j = choose|j: int| 0 <= j < i && old_entries[j].0 == k;
                    assert(orig@.palettes.wf());
                }
                assert(spill(enc@, old_entries, i + 1) == spill(enc@, old_entries, i as int));
                lemma_palettes_stored_intro(*self, *remap, enc@, orig@, base@, i + 1);
            }
            return;
        }
        let ghost e0 = self.palettes.entries@;
        let ghost rom0 = self.rom@;
        {
            let a2 = self.rom.len();
            assert(!self.palettes@.contains_key(a2));
            append(&mut self.rom, &enc[i]);
            self.palettes.entries[i].0 = a2;
            self.palettes.entries[i].1.size = enc[i].len();
            self.palettes.entries[i].1.edited = false;
            proof {
                let v = self.palettes.entries@[i as int].1;
                assert(self.palettes.entries@ =~= e0.update(i as int, (a2, v)));
                lemma_to_map_update(e0, i as int, a2, v);
            }
            let ghost r0 = remap@;
            remap.insert(a, a2);
            let ghost t0 = self.tilesets@;
            let ghost s1 = *self;
            let mut j: usize = 0;
            while j < self.tilesets.len()
                invariant
                    self.rom == s1.rom,
                    self.palettes == s1.palettes,
                    self.rooms == s1.rooms,
                    self.states == s1.states,
                    self.graphics == s1.graphics,
                    self.tile_tables == s1.tile_tables,
                    self.levels == s1.levels,
                    j <= self.tilesets@.len(),
                    self.tilesets@.len() == t0.len(),
                    forall|k: int| j <= k < t0.len() ==> #[trigger] self.tilesets@[k] == t0[k],
                    forall|k: int|
                        0 <= k < j ==> #[trigger] self.tilesets@[k] == if t0[k].value.palette == a {
                            Stored {
                                value: Tileset { palette: a2, ..t0[k].value },
                                size: t0[k].size,
                                edited: true,
                            }
                        } else {
                            t0[k]
                        },
                decreases t0.len() - j,
            {
                if self.tilesets[j].value.palette == a {
                    self.tilesets[j].value.palette = a2;
                    self.tilesets[j].edited = true;
                }
                j += 1;
            }
            proof {
                lemma_spill_monotone(enc@, old_entries, 0, i as int);
                assert(old_len <= a2);
                assert forall|k: int| 0 <= k < old_len implies self.rom@[k] == rom0[k] by {}
                assert forall|k: int| 0 <= k < i implies self.palettes.entries@[k] == e0[k] by {}
                assert(spill(enc@, old_entries, i + 1) == spill(enc@, old_entries, i as int) + enc@[i as int]@.len());
                assert(orig@.palettes.wf());
                assert forall|k: usize| #[trigger] r0.contains_key(k) implies k != a by {
                    let j = choose|j: int| 0 <= j < i && old_entries[j].0 == k;
                }
                assert forall|k: int| 0 <= k < i && moves(enc@, old_entries, k) implies {
                    let f = #[trigger] self.palettes.entries@[k];
                    self.rom@.subrange(f.0 as int, f.0 + enc@[k]@.len()) == enc@[k]@
                } by {
                    let f = self.palettes.entries@[k];
                    assert(f == e0[k]);
                    assert(f.0 + enc@[k]@.len() <= rom0.len());
                    assert(self.rom@.subrange(f.0 as int, f.0 + enc@[k]@.len()) =~= rom0.subrange(
                        f.0 as int,
                        f.0 + enc@[k]@.len(),
                    ));
                }
                assert(self.rom@.subrange(a2 as int, a2 + enc@[i as int]@.len()) =~= enc@[i as int]@);
                assert forall|k: usize| #[trigger]
                    remap@.contains_key(k) implies exists|j: int| 0 <= j < i + 1 && old_entries[j].0 == k by {
                    if k == a {
                        assert(old_entries[i as int].0 == k);
                    } else {
                        let j = choose|j: int| 0 <= j < i && old_entries[j].0 == k;
                    }
                }
                assert forall|j: int| 0 <= j < orig@.tilesets@.len() implies {
                    let o = orig@.tilesets@[j];
                    let f = #[trigger] self.tilesets@[j];
                    &&& f.value == Tileset { palette: remapped(remap@, o.value.palette), ..o.value }
                    &&& f.edited == (o.edited || remap@.contains_key(o.value.palette))
                    &&& f.size == o.size
                } by {
                    let o = orig@.tilesets@[j];
                    assert(self.tilesets@[j] == if t0[j].value.palette == a {
                        Stored {
                            value: Tileset { palette: a2, ..t0[j].value },
                            size: t0[j].size,
                            edited: true,
                        }
                    } else {
                        t0[j]
                    });
                    assert(o.value.palette < old_len) by {
                        assert(orig@.tilesets@[j].value.valid());
                        assert(orig@.palettes@.contains_key(o.value.palette));
                    }
                    if r0.contains_key(o.value.palette) {
                        assert(old_len <= r0[o.value.palette]);
                    }
                }
                let v = self.palettes.entries@[i as int].1;
                let pm0 = to_map(e0);
                assert(old(self).values_wf() && old(self).placed() && old(self).refs_wf());
                assert(old(self).palettes@ == pm0);
                assert(self.palettes@ == pm0.remove(a).insert(a2, v));
                assert forall|k: usize| #[trigger] self.palettes@.contains_key(k) implies self.palettes@[k].value.wf()
                    && k < self.rom@.len() && k + self.palettes@[k].size <= self.rom@.len() by {
                    if k != a2 {
                        assert(pm0.contains_key(k));
                    }
                }
                assert forall|j: int| 0 <= j < self.tilesets@.len() implies {
                    let t = #[trigger] self.tilesets@[j].value;
                    &&& t.valid()
                    &&& self.palettes@.contains_key(t.palette)
                    &&& self.graphics@.contains_key(t.graphic)
                    &&& self.tile_tables@.contains_key(t.tile_table)
                } by {
                    assert(t0[j] == old(self).tilesets@[j]);
                    let t = old(self).tilesets@[j].value;
                    assert(t.valid());
                    assert(old(self).palettes@.contains_key(t.palette));
                }
                assert(self.maps_wf());
                assert(self.values_wf());
                assert(self.refs_wf());
                assert(self.placed());
                assert(spill(enc@, old_entries, i + 1) == spill(enc@, old_entries, i as int) + enc@[i as int]@.len());
                let n = enc@.len() as int;
                assert(self.rom@.len() == old_len + spill(enc@, old_entries, i + 1));
                assert(forall|k: int| 0 <= k < old_len ==> self.rom@[k] == orig@.rom@[k]);
                assert(forall|k: int| i + 1 <= k < n ==> #[trigger] self.palettes.entries@[k] == old_entries[k]);
                assert(forall|k: usize| #[trigger] remap@.contains_key(k) ==> old_len <= remap@[k]);
                assert(self.tilesets@.len() == orig@.tilesets@.len());
                assert(!(forall|k: int| 0 <= k < i + 1 ==> !(#[trigger] old_entries[k]).1.edited));
                assert forall|k: int| 0 <= k < i + 1 implies {
                    let o = old_entries[k];
                    let f = #[trigger] self.palettes.entries@[k];
                    &&& f.1.value == o.1.value
                    &&& f.1.edited == (o.1.edited && !moves(enc@, old_entries, k))
                    &&& moves(enc@, old_entries, k) ==> {
                        &&& remap@.contains_key(o.0)
                        &&& remap@[o.0] == f.0
                        &&& old_len <= f.0
                        &&& f.0 + enc@[k]@.len() <= self.rom@.len()
                        &&& self.rom@.subrange(f.0 as int, f.0 + enc@[k]@.len()) == enc@[k]@
                        &&& f.1.size == enc@[k]@.len()
                    }
                    &&& !moves(enc@, old_entries, k) ==> f.0 == o.0 && f.1.size == o.1.size
                        && !remap@.contains_key(o.0)
                } by {
                    if k < i {
                        assert(self.palettes.entries@[k] == e0[k]);
                    }
                }
                lemma_palettes_stored_intro(*self, *remap, enc@, orig@, base@, i + 1);
            }
        }
    }

    /// Moves the edited palettes whose encoding does not fit their room to the
    /// end of the image, retargeting the tilesets that pointed at them.
    fn store_palettes(&mut self, enc: &Vec<Vec<u8>>, remap: &mut AddressMap<usize>, base: Ghost<int>)
        requires
            palette_save_ready(enc@, *old(self), base@),
            old(remap).wf(),
            old(remap)@ == Map::<usize, usize>::empty(),
        ensures
            palettes_stored(*final(self), *final(remap), enc@, *old(self), base@, enc@.len() as int),
    {
        let ghost orig = *self;
        let mut i: usize = 0;
        proof {
            assert(self.rom@.len() == orig.rom@.len() + spill(enc@, orig.palettes.entries@, 0));
            assert forall|k: usize| #[trigger] remap@.contains_key(k) implies false by {}
            assert forall|j: int| 0 <= j < orig.tilesets@.len() implies {
                let o = orig.tilesets@[j];
                let f = #[trigger] self.tilesets@[j];
                &&& f.value == Tileset { palette: remapped(remap@, o.value.palette), ..o.value }
            } by {
                assert(!remap@.contains_key(orig.tilesets@[j].value.palette));
            }
        }
        while i < enc.len()
            invariant
                palette_save_ready(enc@, orig, base@),
                palettes_stored(*self, *remap, enc@, orig, base@, i as int),
            decreases enc@.len() - i,
        {
            self.store_palette_at(enc, remap, i, base, Ghost(orig));
            i += 1;
        }
    }
}

impl SuperMetroid {
    /// Moves level data entry `i` to the end of the image if it was edited
    /// and its encoding does not fit its room; one that fits stays marked edited.
    #[verifier::spinoff_prover]
    #[verifier::rlimit(100)]
    fn store_level_at(
        &mut self,
        enc: &Vec<Vec<u8>>,
        remap: &mut AddressMap<usize>,
        i: usize,
        base: Ghost<int>,
        orig: Ghost<SuperMetroid>,
    )
        requires
            level_save_ready(enc@, orig@, base@),
            levels_stored(*old(self), *old(remap), enc@, orig@, base@, i as int),
            i < enc@.len(),
        ensures
            levels_stored(*final(self), *final(remap), enc@, orig@, base@, i + 1),
    {
        let ghost old_entries = orig@.levels.entries@;
        let ghost old_len = orig@.rom@.len();
        proof {
            lemma_spill_monotone(enc@, old_entries, i + 1, enc@.len() as int);
            assert(self.levels.entries@[i as int] == old_entries[i as int]);
            lemma_to_map_index(self.levels.entries@, i as int);
        }
        let a = self.levels.entries[i].0;
        proof {
            assert(orig@.levels.wf());
            lemma_to_map_index(old_entries, i as int);
            assert(orig@.levels@.contains_key(a));
            assert(a < old_len);
        }
        let size = self.levels.entries[i].1.size;
        if !self.levels.entries[i].1.edited || enc[i].len() <= size {
            proof {
                assert forall|k: usize| #[trigger] remap@.contains_key(k) implies k != a by {
                    let j = choose|j: int| 0 <= j < i && old_entries[j].0 == k;
                    assert(orig@.levels.wf());
                }
                assert(spill(enc@, old_entries, i + 1) == spill(enc@, old_entries, i as int));
                lemma_levels_stored_intro(*self, *remap, enc@, orig@, base@, i + 1);
            }
            return;
        }
        let ghost e0 = self.levels.entries@;
        let ghost rom0 = self.rom@;
        {
            let a2 = self.rom.len();
            assert(!self.levels@.contains_key(a2));
            append(&mut self.rom, &enc[i]);
            self.levels.entries[i].0 = a2;
            self.levels.entries[i].1.size = enc[i].len();
            self.levels.entries[i].1.edited = false;
            proof {
                let v = self.levels.entries@[i as int].1;
                assert(self.levels.entries@ =~= e0.update(i as int, (a2, v)));
                lemma_to_map_update(e0, i as int, a2, v);
            }
            let ghost r0 = remap@;
            remap.insert(a, a2);
            let ghost t0 = self.states.entries@;
            let ghost s1 = *self;
            let mut j: usize = 0;
            while j < self.states.entries.len()
                invariant
                    self.rom == s1.rom,
                    self.palettes == s1.palettes,
                    self.rooms == s1.rooms,
                    self.tilesets == s1.tilesets,
                    self.graphics == s1.graphics,
                    self.tile_tables == s1.tile_tables,
                    self.levels == s1.levels,
                    j <= self.states.entries@.len(),
                    self.states.entries@.len() == t0.len(),
                    forall|k: int| j <= k < t0.len() ==> #[trigger] self.states.entries@[k] == t0[k],
                    forall|k: int|
                        0 <= k < j ==> #[trigger] self.states.entries@[k] == if t0[k].1.value.level_address
                            == a {
                            (
                                t0[k].0,
                                Stored {
                                    value: State { level_address: a2, ..t0[k].1.value },
                                    size: t0[k].1.size,
                                    edited: true,
                                },
                            )
                        } else {
                            t0[k]
                        },
                decreases t0.len() - j,
            {
                if self.states.entries[j].1.value.level_address == a {
                    self.states.entries[j].1.value.level_address = a2;
                    self.states.entries[j].1.edited = true;
                }
                j += 1;
            }
            proof {
                lemma_spill_monotone(enc@, old_entries, 0, i as int);
                assert(old_len <= a2);
                assert forall|k: int| 0 <= k < old_len implies self.rom@[k] == rom0[k] by {}
                assert forall|k: int| 0 <= k < i implies self.levels.entries@[k] == e0[k] by {}
                assert(spill(enc@, old_entries, i + 1) == spill(enc@, old_entries, i as int) + enc@[i as int]@.len());
                assert(orig@.levels.wf());
                assert forall|k: usize| #[trigger] r0.contains_key(k) implies k != a by {
                    let j = choose|j: int| 0 <= j < i && old_entries[j].0 == k;
                }
                assert forall|k: int| 0 <= k < i && moves(enc@, old_entries, k) implies {
                    let f = #[trigger] self.levels.entries@[k];
                    self.rom@.subrange(f.0 as int, f.0 + enc@[k]@.len()) == enc@[k]@
                } by {
                    let f = self.levels.entries@[k];
                    assert(f == e0[k]);
                    assert(f.0 + enc@[k]@.len() <= rom0.len());
                    assert(self.rom@.subrange(f.0 as int, f.0 + enc@[k]@.len()) =~= rom0.subrange(
                        f.0 as int,
                        f.0 + enc@[k]@.len(),
                    ));
                }
                assert(self.rom@.subrange(a2 as int, a2 + enc@[i as int]@.len()) =~= enc@[i as int]@);
                assert forall|k: usize| #[trigger]
                    remap@.contains_key(k) implies exists|j: int| 0 <= j < i + 1 && old_entries[j].0 == k by {
                    if k == a {
                        assert(old_entries[i as int].0 == k);
                    } else {
                        let j = choose|j: int| 0 <= j < i && old_entries[j].0 == k;
                    }
                }
                let v = self.levels.entries@[i as int].1;
                let pm0 = to_map(e0);
                assert(orig@.states.wf() && orig@.refs_wf() && orig@.placed());
                assert forall|j: int| 0 <= j < orig@.states.entries@.len() implies {
                    let o = orig@.states.entries@[j];
                    let f = #[trigger] self.states.entries@[j];
                    &&& f.0 == o.0
                    &&& f.1.value == State { level_address: remapped(remap@, o.1.value.level_address), ..o.1.value }
                    &&& f.1.edited == (o.1.edited || remap@.contains_key(o.1.value.level_address))
                    &&& f.1.size == o.1.size
                } by {
                    let o = orig@.states.entries@[j];
                    assert(self.states.entries@[j] == if t0[j].1.value.level_address == a {
                        (
                            t0[j].0,
                            Stored {
                                value: State { level_address: a2, ..t0[j].1.value },
                                size: t0[j].1.size,
                                edited: true,
                            },
                        )
                    } else {
                        t0[j]
                    });
                    assert(o.1.value.level_address < old_len) by {
                        lemma_to_map_index(orig@.states.entries@, j);
                        assert(orig@.states@.contains_key(o.0));
                        assert(orig@.levels@.contains_key(o.1.value.level_address));
                    }
                    if r0.contains_key(o.1.value.level_address) {
                        assert(old_len <= r0[o.1.value.level_address]);
                    }
                }
                assert(old(self).values_wf() && old(self).placed() && old(self).refs_wf());
                assert(old(self).levels@ == pm0);
                assert(self.levels@ == pm0.remove(a).insert(a2, v));
                assert forall|k: usize| #[trigger] self.levels@.contains_key(k) implies self.levels@[k].value.wf()
                    && self.levels@[k].value.layer1@.len() <= 0x7FFF && k < self.rom@.len() && k + self.levels@[k].size <= self.rom@.len() by {
                    if k != a2 {
                        assert(pm0.contains_key(k));
                    }
                }
                assert(old(self).states.entries@ == t0);
                lemma_same_keys(t0, self.states.entries@);
                assert forall|k: usize| #[trigger] self.states@.contains_key(k) implies {
                    let st = self.states@[k].value;
                    &&& self.levels@.contains_key(st.level_address)
                    &&& st.level_address < LOROM_MAX_SIZE
                    &&& st.tileset < self.tilesets@.len()
                    &&& k + STATE_BYTES <= self.rom@.len()
                } by {
                    lemma_to_map_dom(self.states.entries@, k);
                    let p = choose|p: int| 0 <= p < self.states.entries@.len() && self.states.entries@[p].0 == k;
                    lemma_to_map_index(t0, p);
                    assert(old(self).states@.contains_key(k));
                    let ot = t0[p].1.value;
                    assert(old(self).levels@.contains_key(ot.level_address));
                    assert(self.states@[k] == self.states.entries@[p].1);
                    if ot.level_address != a {
                        assert(pm0.contains_key(ot.level_address));
                    }
                }
                assert(self.maps_wf());
                assert(self.values_wf());
                assert(self.refs_wf());
                assert(self.placed());
                assert(spill(enc@, old_entries, i + 1) == spill(enc@, old_entries, i as int) + enc@[i as int]@.len());
                let n = enc@.len() as int;
                assert(self.rom@.len() == old_len + spill(enc@, old_entries, i + 1));
                assert(forall|k: int| 0 <= k < old_len ==> self.rom@[k] == orig@.rom@[k]);
                assert(forall|k: int| i + 1 <= k < n ==> #[trigger] self.levels.entries@[k] == old_entries[k]);
                assert(forall|k: usize| #[trigger] remap@.contains_key(k) ==> old_len <= remap@[k]);
                assert(self.states.entries@.len() == orig@.states.entries@.len());
                assert(!(forall|k: int| 0 <= k < i + 1 ==> !(#[trigger] old_entries[k]).1.edited));
                assert forall|k: int| 0 <= k < i + 1 implies {
                    let o = old_entries[k];
                    let f = #[trigger] self.levels.entries@[k];
                    &&& f.1.value == o.1.value
                    &&& f.1.edited == (o.1.edited && !moves(enc@, old_entries, k))
                    &&& moves(enc@, old_entries, k) ==> {
                        &&& remap@.contains_key(o.0)
                        &&& remap@[o.0] == f.0
                        &&& old_len <= f.0
                        &&& f.0 + enc@[k]@.len() <= self.rom@.len()
                        &&& self.rom@.subrange(f.0 as int, f.0 + enc@[k]@.len()) == enc@[k]@
                        &&& f.1.size == enc@[k]@.len()
                    }
                    &&& !moves(enc@, old_entries, k) ==> f.0 == o.0 && f.1.size == o.1.size
                        && !remap@.contains_key(o.0)
                } by {
                    if k < i {
                        assert(self.levels.entries@[k] == e0[k]);
                    }
                }
                lemma_levels_stored_intro(*self, *remap, enc@, orig@, base@, i + 1);
            }
        }
    }
}


impl SuperMetroid {
    /// Writes the edited level data: in place where the encoding fits, else
    /// at the end of the image, retargeting the states that pointed at them.
    fn store_levels(&mut self, enc: &Vec<Vec<u8>>, remap: &mut AddressMap<usize>, base: Ghost<int>)
        requires
            level_save_ready(enc@, *old(self), base@),
            old(remap).wf(),
            old(remap)@ == Map::<usize, usize>::empty(),
        ensures
            levels_stored(*final(self), *final(remap), enc@, *old(self), base@, enc@.len() as int),
    {
        let ghost orig = *self;
        let mut i: usize = 0;
        proof {
            assert(self.rom@.len() == orig.rom@.len() + spill(enc@, orig.levels.entries@, 0));
            assert forall|k: usize| #[trigger] remap@.contains_key(k) implies false by {}
            assert forall|j: int| 0 <= j < orig.states.entries@.len() implies {
                let o = orig.states.entries@[j];
                let f = #[trigger] self.states.entries@[j];
                &&& f.1.value == State {
                    level_address: remapped(remap@, o.1.value.level_address),
                    ..o.1.value
                }
            } by {
                assert(!remap@.contains_key(orig.states.entries@[j].1.value.level_address));
            }
        }
        while i < enc.len()
            invariant
                level_save_ready(enc@, orig, base@),
                levels_stored(*self, *remap, enc@, orig, base@, i as int),
            decreases enc@.len() - i,
        {
            self.store_level_at(enc, remap, i, base, Ghost(orig));
            i += 1;
        }
    }

    /// Writes the edited tileset records in place and clears their marks.
    fn write_tilesets(&mut self, base: Ghost<int>)
        requires
            old(self).wf(),
            old(self).tilesets@.len() == 0 || TILESET_TABLE_PC + TILESET_BYTES * old(
                self,
            ).tilesets@.len() <= base@,
            base@ <= old(
                self,
            ).rom@.len(),
        ensures
            final(self).wf(),
            final(self).rom@.len() == old(self).rom@.len(),
            forall|k: int| base@ <= k < old(self).rom@.len() ==> final(self).rom@[k] == old(self).rom@[k],
            forall|x: int|
                0 <= x < old(self).rom@.len() && (forall|j: int|
                    0 <= j < old(self).tilesets@.len() && (#[trigger] old(self).tilesets@[j]).edited ==> !(
                    TILESET_TABLE_PC + TILESET_BYTES * j <= x < TILESET_TABLE_PC + TILESET_BYTES * j
                        + TILESET_BYTES)) ==> final(self).rom@[x] == old(self).rom@[x],
            forall|j: int|
                0 <= j < old(self).tilesets@.len() && (#[trigger] old(self).tilesets@[j]).edited
                    ==> final(self).rom@.subrange(
                    TILESET_TABLE_PC + TILESET_BYTES * j,
                    TILESET_TABLE_PC + TILESET_BYTES * j + TILESET_BYTES,
                ) == tileset_bytes(old(self).tilesets@[j].value),
            final(self).tilesets@.len() == old(self).tilesets@.len(),
            forall|j: int|
                0 <= j < old(self).tilesets@.len() ==> (#[trigger] final(self).tilesets@[j]).value
                    == old(self).tilesets@[j].value && !final(self).tilesets@[j].edited
                    && final(self).tilesets@[j].size == old(self).tilesets@[j].size,
            final(self).rooms == old(self).rooms,
            final(self).states == old(self).states,
            final(self).palettes == old(self).palettes,
            final(self).graphics == old(self).graphics,
            final(self).tile_tables == old(self).tile_tables,
            final(self).levels == old(self).levels,
            (forall|j: int| 0 <= j < old(self).tilesets@.len() ==> !(#[trigger] old(self).tilesets@[j]).edited)
                ==> *final(self) == *old(self),
    {
        let ghost orig = *self;
        let mut j: usize = 0;
        while j < self.tilesets.len()
            invariant
                orig.wf(),
                self.wf(),
                orig.tilesets@.len() == 0 || TILESET_TABLE_PC + TILESET_BYTES * orig.tilesets@.len()
                    <= base@,
                base@ <= orig.rom@.len(),
                self.rom@.len() == orig.rom@.len(),
                forall|k: int| base@ <= k < orig.rom@.len() ==> self.rom@[k] == orig.rom@[k],
                forall|x: int|
                    0 <= x < orig.rom@.len() && (forall|q: int|
                        0 <= q < orig.tilesets@.len() && (#[trigger] orig.tilesets@[q]).edited ==> !(
                        TILESET_TABLE_PC + TILESET_BYTES * q <= x < TILESET_TABLE_PC + TILESET_BYTES * q
                            + TILESET_BYTES)) ==> self.rom@[x] == orig.rom@[x],
                self.tilesets@.len() == orig.tilesets@.len(),
                j <= self.tilesets@.len(),
                forall|q: int|
                    0 <= q < j && (#[trigger] orig.tilesets@[q]).edited ==> self.rom@.subrange(
                        TILESET_TABLE_PC + TILESET_BYTES * q,
                        TILESET_TABLE_PC + TILESET_BYTES * q + TILESET_BYTES,
                    ) == tileset_bytes(orig.tilesets@[q].value),
                forall|k: int|
                    0 <= k < j ==> (#[trigger] self.tilesets@[k]).value == orig.tilesets@[k].value
                        && !self.tilesets@[k].edited && self.tilesets@[k].size == orig.tilesets@[k].size,
                forall|k: int| j <= k < self.tilesets@.len() ==> #[trigger] self.tilesets@[k] == orig.tilesets@[k],
                self.rooms == orig.rooms,
                self.states == orig.states,
                self.palettes == orig.palettes,
                self.graphics == orig.graphics,
                self.tile_tables == orig.tile_tables,
                self.levels == orig.levels,
                (forall|k: int| 0 <= k < orig.tilesets@.len() ==> !(#[trigger] orig.tilesets@[k]).edited)
                    ==> *self == orig,
            decreases self.tilesets@.len() - j,
        {
            if self.tilesets[j].edited {
                assert(self.tilesets@[j as int].value.valid());
                let bytes = self.tilesets[j].value.to_bytes();
                assert(bytes@.len() == TILESET_BYTES);
                let ghost rom0 = self.rom@;
                let w = write_bytes(&mut self.rom, TILESET_TABLE_PC + TILESET_BYTES * j, bytes.as_slice());
                assert(w.is_ok());
                assert(forall|k: int| base@ <= k < orig.rom@.len() ==> self.rom@[k] == rom0[k]);
                assert forall|x: int|
                    0 <= x < orig.rom@.len() && (forall|q: int|
                        0 <= q < orig.tilesets@.len() && (#[trigger] orig.tilesets@[q]).edited ==> !(
                        TILESET_TABLE_PC + TILESET_BYTES * q <= x < TILESET_TABLE_PC + TILESET_BYTES * q
                            + TILESET_BYTES)) implies self.rom@[x] == rom0[x] by {
                    assert(orig.tilesets@[j as int].edited);
                }
                assert forall|q: int|
                    0 <= q < j + 1 && (#[trigger] orig.tilesets@[q]).edited implies self.rom@.subrange(
                        TILESET_TABLE_PC + TILESET_BYTES * q,
                        TILESET_TABLE_PC + TILESET_BYTES * q + TILESET_BYTES,
                    ) == tileset_bytes(orig.tilesets@[q].value) by {
                    let lo = TILESET_TABLE_PC + TILESET_BYTES * q;
                    if q < j {
                        assert(self.rom@.subrange(lo, lo + TILESET_BYTES) =~= rom0.subrange(lo, lo + TILESET_BYTES));
                    } else {
                        assert(self.tilesets@[j as int] == orig.tilesets@[j as int]);
                        assert(self.rom@.subrange(lo, lo + TILESET_BYTES) =~= bytes@);
                    }
                }
                self.tilesets[j].edited = false;
            }
            j += 1;
        }
    }

    /// Writes the edited state records in place and clears their marks.
    fn write_states(&mut self, base: Ghost<int>)
        requires
            old(self).wf(),
            base@ <= old(self).rom@.len(),
            forall|p: int|
                0 <= p < old(self).states.entries@.len() ==> (#[trigger] old(
                    self,
                ).states.entries@[p]).0 + STATE_BYTES <= base@,
        ensures
            final(self).wf(),
            final(self).rom@.len() == old(self).rom@.len(),
            forall|k: int| base@ <= k < old(self).rom@.len() ==> final(self).rom@[k] == old(self).rom@[k],
            forall|x: int|
                0 <= x < old(self).rom@.len() && (forall|p: int|
                    0 <= p < old(self).states.entries@.len() && (#[trigger] old(
                        self,
                    ).states.entries@[p]).1.edited ==> !(old(self).states.entries@[p].0 <= x < old(
                        self,
                    ).states.entries@[p].0 + STATE_BYTES)) ==> final(self).rom@[x] == old(self).rom@[x],
            forall|p: int|
                0 <= p < old(self).states.entries@.len() && (#[trigger] old(
                    self,
                ).states.entries@[p]).1.edited && (forall|q: int|
                    0 <= q < old(self).states.entries@.len() && q != p && old(
                        self,
                    ).states.entries@[q].1.edited ==> apart(
                        old(self).states.entries@[q].0 as int,
                        STATE_BYTES as int,
                        old(self).states.entries@[p].0 as int,
                        STATE_BYTES as int,
                    )) ==> final(self).rom@.subrange(
                    old(self).states.entries@[p].0 as int,
                    old(self).states.entries@[p].0 + STATE_BYTES,
                ) == state_bytes(old(self).states.entries@[p].1.value),
            final(self).states.entries@.len() == old(self).states.entries@.len(),
            forall|p: int|
                0 <= p < old(self).states.entries@.len() ==> (#[trigger] final(self).states.entries@[p]).0
                    == old(self).states.entries@[p].0 && final(self).states.entries@[p].1.value == old(
                    self,
                ).states.entries@[p].1.value && !final(self).states.entries@[p].1.edited,
            final(self).rooms == old(self).rooms,
            final(self).tilesets == old(self).tilesets,
            final(self).palettes == old(self).palettes,
            final(self).graphics == old(self).graphics,
            final(self).tile_tables == old(self).tile_tables,
            final(self).levels == old(self).levels,
            (forall|p: int|
                0 <= p < old(self).states.entries@.len() ==> !(#[trigger] old(
                    self,
                ).states.entries@[p]).1.edited) ==> *final(self) == *old(self),
    {
        let ghost orig = *self;
        let mut p: usize = 0;
        while p < self.states.entries.len()
            invariant
                orig.wf(),
                base@ <= orig.rom@.len(),
                forall|q: int|
                    0 <= q < orig.states.entries@.len() ==> (#[trigger] orig.states.entries@[q]).0
                        + STATE_BYTES <= base@,
                self.rom@.len() == orig.rom@.len(),
                forall|k: int| base@ <= k < orig.rom@.len() ==> self.rom@[k] == orig.rom@[k],
                forall|x: int|
                    0 <= x < orig.rom@.len() && (forall|q: int|
                        0 <= q < orig.states.entries@.len() && (#[trigger] orig.states.entries@[q]).1.edited
                            ==> !(orig.states.entries@[q].0 <= x < orig.states.entries@[q].0 + STATE_BYTES))
                        ==> self.rom@[x] == orig.rom@[x],
                self.states.entries@.len() == orig.states.entries@.len(),
                p <= self.states.entries@.len(),
                forall|k: int|
                    0 <= k < p && (#[trigger] orig.states.entries@[k]).1.edited && (forall|q: int|
                        0 <= q < orig.states.entries@.len() && q != k && orig.states.entries@[q].1.edited
                            ==> apart(
                            orig.states.entries@[q].0 as int,
                            STATE_BYTES as int,
                            orig.states.entries@[k].0 as int,
                            STATE_BYTES as int,
                        )) ==> self.rom@.subrange(
                        orig.states.entries@[k].0 as int,
                        orig.states.entries@[k].0 + STATE_BYTES,
                    ) == state_bytes(orig.states.entries@[k].1.value),
                forall|q: int|
                    0 <= q < p ==> (#[trigger] self.states.entries@[q]).0 == orig.states.entries@[q].0
                        && self.states.entries@[q].1.value == orig.states.entries@[q].1.value
                        && !self.states.entries@[q].1.edited && self.states.entries@[q].1.size
                        == orig.states.entries@[q].1.size,
                forall|q: int|
                    p <= q < self.states.entries@.len() ==> #[trigger] self.states.entries@[q]
                        == orig.states.entries@[q],
                self.rooms == orig.rooms,
                self.tilesets == orig.tilesets,
                self.palettes == orig.palettes,
                self.graphics == orig.graphics,
                self.tile_tables == orig.tile_tables,
                self.levels == orig.levels,
                (forall|q: int|
                    0 <= q < orig.states.entries@.len() ==> !(#[trigger] orig.states.entries@[q]).1.edited)
                    ==> *self == orig,
            decreases self.states.entries@.len() - p,
        {
            if self.states.entries[p].1.edited {
                assert(orig.states.entries@[p as int].0 + STATE_BYTES <= base@);
                proof {
                    lemma_to_map_index(orig.states.entries@, p as int);
                    assert(orig.states@.contains_key(orig.states.entries@[p as int].0));
                    assert(self.states.entries@[p as int] == orig.states.entries@[p as int]);
                }
                let a = self.states.entries[p].0;
                let bytes = self.states.entries[p].1.value.to_bytes();
                assert(bytes@.len() == STATE_BYTES);
                let ghost rom0 = self.rom@;
                let w = write_bytes(&mut self.rom, a, bytes.as_slice());
                assert(w.is_ok());
                assert(forall|k: int| base@ <= k < orig.rom@.len() ==> self.rom@[k] == rom0[k]);
                assert forall|x: int|
                    0 <= x < orig.rom@.len() && (forall|q: int|
                        0 <= q < orig.states.entries@.len() && (#[trigger] orig.states.entries@[q]).1.edited
                            ==> !(orig.states.entries@[q].0 <= x < orig.states.entries@[q].0 + STATE_BYTES))
                        implies self.rom@[x] == rom0[x] by {
                    assert(orig.states.entries@[p as int].1.edited);
                }
                assert forall|k: int|
                    0 <= k < p + 1 && (#[trigger] orig.states.entries@[k]).1.edited && (forall|q: int|
                        0 <= q < orig.states.entries@.len() && q != k && orig.states.entries@[q].1.edited
                            ==> apart(
                            orig.states.entries@[q].0 as int,
                            STATE_BYTES as int,
                            orig.states.entries@[k].0 as int,
                            STATE_BYTES as int,
                        )) implies self.rom@.subrange(
                        orig.states.entries@[k].0 as int,
                        orig.states.entries@[k].0 + STATE_BYTES,
                    ) == state_bytes(orig.states.entries@[k].1.value) by {
                    let lo = orig.states.entries@[k].0 as int;
                    if k < p {
                        assert(apart(orig.states.entries@[p as int].0 as int, STATE_BYTES as int, lo, STATE_BYTES as int));
                        assert(self.rom@.subrange(lo, lo + STATE_BYTES) =~= rom0.subrange(lo, lo + STATE_BYTES));
                    } else {
                        assert(self.rom@.subrange(lo, lo + STATE_BYTES) =~= bytes@);
                    }
                }
                self.states.entries[p].1.edited = false;
            }
            p += 1;
        }
        proof {
            lemma_same_keys(orig.states.entries@, self.states.entries@);
            assert forall|k: usize| #[trigger] self.states@.contains_key(k) implies self.states@[k].value
                == orig.states@[k].value by {
                lemma_to_map_dom(self.states.entries@, k);
                let q = choose|q: int| 0 <= q < self.states.entries@.len() && self.states.entries@[q].0 == k;
                lemma_to_map_index(orig.states.entries@, q);
            }
            assert(self.refs_wf());
            assert(self.placed());
        }
    }
}


/// The ranges `[a1, a1 + n1)` and `[a2, a2 + n2)` do not meet.
pub open spec fn apart(a1: int, n1: int, a2: int, n2: int) -> bool {
    a1 + n1 <= a2 || a2 + n2 <= a1
}

impl SuperMetroid {
    /// Writes the palettes still marked edited in place and clears their marks.
    #[verifier::spinoff_prover]
    fn write_palettes_in_place(&mut self, enc: &Vec<Vec<u8>>, base: Ghost<int>)
        requires
            old(self).wf(),
            enc@.len() == old(self).palettes.entries@.len(),
            base@ <= old(self).rom@.len(),
            forall|k: int|
                0 <= k < enc@.len() && (#[trigger] old(self).palettes.entries@[k]).1.edited ==> enc@[k]@.len()
                    <= old(self).palettes.entries@[k].1.size && old(self).palettes.entries@[k].0
                    + old(self).palettes.entries@[k].1.size <= base@,
        ensures
            final(self).wf(),
            final(self).rom@.len() == old(self).rom@.len(),
            forall|k: int| base@ <= k < old(self).rom@.len() ==> final(self).rom@[k] == old(self).rom@[k],
            final(self).palettes.entries@.len() == old(self).palettes.entries@.len(),
            forall|k: int|
                0 <= k < enc@.len() ==> {
                    let o = old(self).palettes.entries@[k];
                    let f = #[trigger] final(self).palettes.entries@[k];
                    f.0 == o.0 && f.1.value == o.1.value && f.1.size == o.1.size && !f.1.edited
                },
            forall|k: int|
                0 <= k < enc@.len() && (#[trigger] old(self).palettes.entries@[k]).1.edited && (forall|j: int|
                    0 <= j < enc@.len() && j != k && old(self).palettes.entries@[j].1.edited ==> apart(
                        old(self).palettes.entries@[j].0 as int,
                        old(self).palettes.entries@[j].1.size as int,
                        old(self).palettes.entries@[k].0 as int,
                        old(self).palettes.entries@[k].1.size as int,
                    )) ==> final(self).rom@.subrange(
                    old(self).palettes.entries@[k].0 as int,
                    old(self).palettes.entries@[k].0 + enc@[k]@.len(),
                ) == enc@[k]@,
            forall|x: int|
                0 <= x < old(self).rom@.len() && (forall|p: int|
                    0 <= p < enc@.len() && (#[trigger] old(self).palettes.entries@[p]).1.edited ==> !(
                    old(self).palettes.entries@[p].0 <= x < old(self).palettes.entries@[p].0 + old(
                        self,
                    ).palettes.entries@[p].1.size)) ==> final(self).rom@[x] == old(self).rom@[x],
            final(self).rooms == old(self).rooms,
            final(self).states == old(self).states,
            final(self).tilesets == old(self).tilesets,
            final(self).graphics == old(self).graphics,
            final(self).tile_tables == old(self).tile_tables,
            final(self).levels == old(self).levels,
            (forall|k: int| 0 <= k < enc@.len() ==> !(#[trigger] old(self).palettes.entries@[k]).1.edited)
                ==> *final(self) == *old(self),
    {
        let ghost orig = *self;
        let ghost oe = orig.palettes.entries@;
        let mut i: usize = 0;
        while i < enc.len()
            invariant
                orig.wf(),
                self.wf(),
                oe == orig.palettes.entries@,
                enc@.len() == oe.len(),
                base@ <= orig.rom@.len(),
                forall|k: int|
                    0 <= k < enc@.len() && (#[trigger] oe[k]).1.edited ==> enc@[k]@.len() <= oe[k].1.size
                        && oe[k].0 + oe[k].1.size <= base@,
                i <= enc@.len(),
                self.rom@.len() == orig.rom@.len(),
                forall|k: int| base@ <= k < orig.rom@.len() ==> self.rom@[k] == orig.rom@[k],
                self.palettes.entries@.len() == oe.len(),
                forall|k: int|
                    0 <= k < i ==> {
                        let f = #[trigger] self.palettes.entries@[k];
                        f.0 == oe[k].0 && f.1.value == oe[k].1.value && f.1.size == oe[k].1.size
                            && !f.1.edited
                    },
                forall|k: int| i <= k < oe.len() ==> #[trigger] self.palettes.entries@[k] == oe[k],
                forall|k: int|
                    0 <= k < i && (#[trigger] oe[k]).1.edited && (forall|j: int|
                        0 <= j < oe.len() && j != k && oe[j].1.edited ==> apart(
                            oe[j].0 as int,
                            oe[j].1.size as int,
                            oe[k].0 as int,
                            oe[k].1.size as int,
                        )) ==> self.rom@.subrange(oe[k].0 as int, oe[k].0 + enc@[k]@.len()) == enc@[k]@,
                forall|x: int|
                    0 <= x < orig.rom@.len() && (forall|p: int|
                        0 <= p < oe.len() && (#[trigger] oe[p]).1.edited ==> !(oe[p].0 <= x < oe[p].0
                            + oe[p].1.size)) ==> self.rom@[x] == orig.rom@[x],
                self.rooms == orig.rooms,
                self.states == orig.states,
                self.tilesets == orig.tilesets,
                self.graphics == orig.graphics,
                self.tile_tables == orig.tile_tables,
                self.levels == orig.levels,
                (forall|k: int| 0 <= k < oe.len() ==> !(#[trigger] oe[k]).1.edited) ==> *self == orig,
            decreases enc@.len() - i,
        {
            if self.palettes.entries[i].1.edited {
                let a = self.palettes.entries[i].0;
                let ghost e0 = self.palettes.entries@;
                let ghost rom0 = self.rom@;
                let ghost s0 = *self;
                assert(oe[i as int].1.edited);
                let w = write_bytes(&mut self.rom, a, enc[i].as_slice());
                assert(w.is_ok());
                self.palettes.entries[i].1.edited = false;
                proof {
                    let v = self.palettes.entries@[i as int].1;
                    assert(self.palettes.entries@ =~= e0.update(i as int, (a, v)));
                    lemma_to_map_index(e0, i as int);
                    lemma_to_map_update(e0, i as int, a, v);
                    let pm0 = to_map(e0);
                    assert(pm0.remove(a).insert(a, v) =~= pm0.insert(a, v));
                    assert(self.palettes@ == pm0.insert(a, v));
                    assert(s0.wf() && s0.palettes@ == pm0);
                    assert forall|k: usize| #[trigger] self.palettes@.contains_key(k) implies self.palettes@[k].value.wf()
                        && k < self.rom@.len() && k + self.palettes@[k].size <= self.rom@.len() by {
                        assert(pm0.contains_key(k));
                        assert(s0.values_wf() && s0.placed());
                    }
                    assert forall|k: int| base@ <= k < orig.rom@.len() implies self.rom@[k] == rom0[k] by {}
                    assert forall|k: int|
                        0 <= k < i + 1 && (#[trigger] oe[k]).1.edited && (forall|j: int|
                            0 <= j < oe.len() && j != k && oe[j].1.edited ==> apart(
                                oe[j].0 as int,
                                oe[j].1.size as int,
                                oe[k].0 as int,
                                oe[k].1.size as int,
                            )) implies self.rom@.subrange(oe[k].0 as int, oe[k].0 + enc@[k]@.len())
                        == enc@[k]@ by {
                        if k < i {
                            assert(apart(oe[i as int].0 as int, oe[i as int].1.size as int, oe[k].0 as int, oe[k].1.size as int));
                            assert(self.rom@.subrange(oe[k].0 as int, oe[k].0 + enc@[k]@.len()) =~= rom0.subrange(
                                oe[k].0 as int,
                                oe[k].0 + enc@[k]@.len(),
                            ));
                        } else {
                            assert(self.rom@.subrange(a as int, a + enc@[i as int]@.len()) =~= enc@[i as int]@);
                        }
                    }
                    assert forall|x: int|
                        0 <= x < orig.rom@.len() && (forall|p: int|
                            0 <= p < oe.len() && (#[trigger] oe[p]).1.edited ==> !(oe[p].0 <= x < oe[p].0
                                + oe[p].1.size)) implies self.rom@[x] == orig.rom@[x] by {
                        assert(!(oe[i as int].0 <= x < oe[i as int].0 + oe[i as int].1.size));
                    }
                    assert(self.maps_wf());
                    assert(self.values_wf());
                    assert(self.refs_wf());
                    assert(self.placed());
                }
            }
            i += 1;
        }
    }
}

impl SuperMetroid {
    /// Writes the levels still marked edited in place and clears their marks.
    #[verifier::spinoff_prover]
    fn write_levels_in_place(&mut self, enc: &Vec<Vec<u8>>, base: Ghost<int>)
        requires
            old(self).wf(),
            enc@.len() == old(self).levels.entries@.len(),
            base@ <= old(self).rom@.len(),
            forall|k: int|
                0 <= k < enc@.len() && (#[trigger] old(self).levels.entries@[k]).1.edited ==> enc@[k]@.len()
                    <= old(self).levels.entries@[k].1.size && old(self).levels.entries@[k].0
                    + old(self).levels.entries@[k].1.size <= base@,
        ensures
            final(self).wf(),
            final(self).rom@.len() == old(self).rom@.len(),
            forall|k: int| base@ <= k < old(self).rom@.len() ==> final(self).rom@[k] == old(self).rom@[k],
            final(self).levels.entries@.len() == old(self).levels.entries@.len(),
            forall|k: int|
                0 <= k < enc@.len() ==> {
                    let o = old(self).levels.entries@[k];
                    let f = #[trigger] final(self).levels.entries@[k];
                    f.0 == o.0 && f.1.value == o.1.value && f.1.size == o.1.size && !f.1.edited
                },
            forall|k: int|
                0 <= k < enc@.len() && (#[trigger] old(self).levels.entries@[k]).1.edited && (forall|j: int|
                    0 <= j < enc@.len() && j != k && old(self).levels.entries@[j].1.edited ==> apart(
                        old(self).levels.entries@[j].0 as int,
                        old(self).levels.entries@[j].1.size as int,
                        old(self).levels.entries@[k].0 as int,
                        old(self).levels.entries@[k].1.size as int,
                    )) ==> final(self).rom@.subrange(
                    old(self).levels.entries@[k].0 as int,
                    old(self).levels.entries@[k].0 + enc@[k]@.len(),
                ) == enc@[k]@,
            forall|x: int|
                0 <= x < old(self).rom@.len() && (forall|p: int|
                    0 <= p < enc@.len() && (#[trigger] old(self).levels.entries@[p]).1.edited ==> !(
                    old(self).levels.entries@[p].0 <= x < old(self).levels.entries@[p].0 + old(
                        self,
                    ).levels.entries@[p].1.size)) ==> final(self).rom@[x] == old(self).rom@[x],
            final(self).rooms == old(self).rooms,
            final(self).states == old(self).states,
            final(self).tilesets == old(self).tilesets,
            final(self).graphics == old(self).graphics,
            final(self).tile_tables == old(self).tile_tables,
            final(self).palettes == old(self).palettes,
            (forall|k: int| 0 <= k < enc@.len() ==> !(#[trigger] old(self).levels.entries@[k]).1.edited)
                ==> *final(self) == *old(self),
    {
        let ghost orig = *self;
        let ghost oe = orig.levels.entries@;
        let mut i: usize = 0;
        while i < enc.len()
            invariant
                orig.wf(),
                self.wf(),
                oe == orig.levels.entries@,
                enc@.len() == oe.len(),
                base@ <= orig.rom@.len(),
                forall|k: int|
                    0 <= k < enc@.len() && (#[trigger] oe[k]).1.edited ==> enc@[k]@.len() <= oe[k].1.size
                        && oe[k].0 + oe[k].1.size <= base@,
                i <= enc@.len(),
                self.rom@.len() == orig.rom@.len(),
                forall|k: int| base@ <= k < orig.rom@.len() ==> self.rom@[k] == orig.rom@[k],
                self.levels.entries@.len() == oe.len(),
                forall|k: int|
                    0 <= k < i ==> {
                        let f = #[trigger] self.levels.entries@[k];
                        f.0 == oe[k].0 && f.1.value == oe[k].1.value && f.1.size == oe[k].1.size
                            && !f.1.edited
                    },
                forall|k: int| i <= k < oe.len() ==> #[trigger] self.levels.entries@[k] == oe[k],
                forall|k: int|
                    0 <= k < i && (#[trigger] oe[k]).1.edited && (forall|j: int|
                        0 <= j < oe.len() && j != k && oe[j].1.edited ==> apart(
                            oe[j].0 as int,
                            oe[j].1.size as int,
                            oe[k].0 as int,
                            oe[k].1.size as int,
                        )) ==> self.rom@.subrange(oe[k].0 as int, oe[k].0 + enc@[k]@.len()) == enc@[k]@,
                forall|x: int|
                    0 <= x < orig.rom@.len() && (forall|p: int|
                        0 <= p < oe.len() && (#[trigger] oe[p]).1.edited ==> !(oe[p].0 <= x < oe[p].0
                            + oe[p].1.size)) ==> self.rom@[x] == orig.rom@[x],
                self.rooms == orig.rooms,
                self.states == orig.states,
                self.tilesets == orig.tilesets,
                self.graphics == orig.graphics,
                self.tile_tables == orig.tile_tables,
                self.palettes == orig.palettes,
                (forall|k: int| 0 <= k < oe.len() ==> !(#[trigger] oe[k]).1.edited) ==> *self == orig,
            decreases enc@.len() - i,
        {
            if self.levels.entries[i].1.edited {
                let a = self.levels.entries[i].0;
                let ghost e0 = self.levels.entries@;
                let ghost rom0 = self.rom@;
                let ghost s0 = *self;
                assert(oe[i as int].1.edited);
                let w = write_bytes(&mut self.rom, a, enc[i].as_slice());
                assert(w.is_ok());
                self.levels.entries[i].1.edited = false;
                proof {
                    let v = self.levels.entries@[i as int].1;
                    assert(self.levels.entries@ =~= e0.update(i as int, (a, v)));
                    lemma_to_map_index(e0, i as int);
                    lemma_to_map_update(e0, i as int, a, v);
                    let pm0 = to_map(e0);
                    assert(pm0.remove(a).insert(a, v) =~= pm0.insert(a, v));
                    assert(self.levels@ == pm0.insert(a, v));
                    assert(s0.wf() && s0.levels@ == pm0);
                    assert forall|k: usize| #[trigger] self.levels@.contains_key(k) implies self.levels@[k].value.wf()
                        && self.levels@[k].value.layer1@.len() <= 0x7FFF && k < self.rom@.len() && k
                        + self.levels@[k].size <= self.rom@.len() by {
                        assert(pm0.contains_key(k));
                        assert(s0.values_wf() && s0.placed());
                    }
                    assert forall|k: int| base@ <= k < orig.rom@.len() implies self.rom@[k] == rom0[k] by {}
                    assert forall|k: int|
                        0 <= k < i + 1 && (#[trigger] oe[k]).1.edited && (forall|j: int|
                            0 <= j < oe.len() && j != k && oe[j].1.edited ==> apart(
                                oe[j].0 as int,
                                oe[j].1.size as int,
                                oe[k].0 as int,
                                oe[k].1.size as int,
                            )) implies self.rom@.subrange(oe[k].0 as int, oe[k].0 + enc@[k]@.len())
                        == enc@[k]@ by {
                        if k < i {
                            assert(apart(oe[i as int].0 as int, oe[i as int].1.size as int, oe[k].0 as int, oe[k].1.size as int));
                            assert(self.rom@.subrange(oe[k].0 as int, oe[k].0 + enc@[k]@.len()) =~= rom0.subrange(
                                oe[k].0 as int,
                                oe[k].0 + enc@[k]@.len(),
                            ));
                        } else {
                            assert(self.rom@.subrange(a as int, a + enc@[i as int]@.len()) =~= enc@[i as int]@);
                        }
                    }
                    assert forall|x: int|
                        0 <= x < orig.rom@.len() && (forall|p: int|
                            0 <= p < oe.len() && (#[trigger] oe[p]).1.edited ==> !(oe[p].0 <= x < oe[p].0
                                + oe[p].1.size)) implies self.rom@[x] == orig.rom@[x] by {
                        assert(!(oe[i as int].0 <= x < oe[i as int].0 + oe[i as int].1.size));
                    }
                    assert(self.maps_wf());
                    assert(self.values_wf());
                    assert(self.refs_wf());
                    assert(self.placed());
                }
            }
            i += 1;
        }
    }
}

/// Whether nothing in `sm` is marked edited.
pub open spec fn nothing_edited(sm: SuperMetroid) -> bool {
    &&& forall|p: int|
        0 <= p < sm.palettes.entries@.len() ==> !(#[trigger] sm.palettes.entries@[p]).1.edited
    &&& forall|p: int| 0 <= p < sm.levels.entries@.len() ==> !(#[trigger] sm.levels.entries@[p]).1.edited
    &&& forall|p: int| 0 <= p < sm.states.entries@.len() ==> !(#[trigger] sm.states.entries@[p]).1.edited
    &&& forall|j: int| 0 <= j < sm.tilesets@.len() ==> !(#[trigger] sm.tilesets@[j]).edited
}

/// An edited palette whose encoding fits its room: it is written in place.
pub open spec fn palette_in_place(e: Stored<Palette>) -> bool {
    e.edited && !palette_moves(e)
}

/// Edited level data whose encoding fits its room: it is written in place.
pub open spec fn level_in_place(e: Stored<LevelData>) -> bool {
    e.edited && !level_moves(e)
}

/// The room of palette `p` of `sm` meets no other room that the save writes
/// in place.
pub open spec fn palette_room_apart(sm: SuperMetroid, p: int) -> bool {
    let e = sm.palettes.entries@[p];
    &&& forall|j: int|
        0 <= j < sm.palettes.entries@.len() && j != p && palette_in_place(
            (#[trigger] sm.palettes.entries@[j]).1,
        ) ==> apart(sm.palettes.entries@[j].0 as int, sm.palettes.entries@[j].1.size as int, e.0 as int, e.1.size as int)
    &&& forall|q: int|
        0 <= q < sm.levels.entries@.len() && level_in_place((#[trigger] sm.levels.entries@[q]).1) ==> apart(
            sm.levels.entries@[q].0 as int,
            sm.levels.entries@[q].1.size as int,
            e.0 as int,
            e.1.size as int,
        )
}

/// The room of level data `q` of `sm` meets no other room of level data that
/// the save writes in place.
pub open spec fn level_room_apart(sm: SuperMetroid, q: int) -> bool {
    let e = sm.levels.entries@[q];
    forall|j: int|
        0 <= j < sm.levels.entries@.len() && j != q && level_in_place((#[trigger] sm.levels.entries@[j]).1)
            ==> apart(sm.levels.entries@[j].0 as int, sm.levels.entries@[j].1.size as int, e.0 as int, e.1.size as int)
}

/// Whether a save of `old` that moved what `remap` holds writes byte `x` of
/// the image in place: in a tileset record that was edited or points at a
/// moved palette, a state record that was edited or points at moved level
/// data, or the room of a palette or level data written in place.
pub open spec fn rewritten(old: SuperMetroid, remap: Remap, x: int) -> bool {
    ||| exists|j: int|
        0 <= j < old.tilesets@.len() && ((#[trigger] old.tilesets@[j]).edited
            || remap.palettes@.contains_key(old.tilesets@[j].value.palette)) && TILESET_TABLE_PC
            + TILESET_BYTES * j <= x < TILESET_TABLE_PC + TILESET_BYTES * j + TILESET_BYTES
    ||| exists|p: int|
        0 <= p < old.states.entries@.len() && ((#[trigger] old.states.entries@[p]).1.edited
            || remap.levels@.contains_key(old.states.entries@[p].1.value.level_address))
            && old.states.entries@[p].0 <= x < old.states.entries@[p].0 + STATE_BYTES
    ||| exists|p: int|
        0 <= p < old.palettes.entries@.len() && palette_in_place((#[trigger] old.palettes.entries@[p]).1)
            && old.palettes.entries@[p].0 <= x < old.palettes.entries@[p].0 + old.palettes.entries@[p].1.size
    ||| exists|p: int|
        0 <= p < old.levels.entries@.len() && level_in_place((#[trigger] old.levels.entries@[p]).1)
            && old.levels.entries@[p].0 <= x < old.levels.entries@[p].0 + old.levels.entries@[p].1.size
}

/// Whether a save of `old` that moved what `remap` holds rewrites tileset
/// record `j`: it was edited or points at a moved palette.
pub open spec fn tileset_written(old: SuperMetroid, remap: Remap, j: int) -> bool {
    old.tilesets@[j].edited || remap.palettes@.contains_key(old.tilesets@[j].value.palette)
}

/// Whether a save of `old` that moved what `remap` holds rewrites state
/// record `p`: it was edited or points at moved level data.
pub open spec fn state_written(old: SuperMetroid, remap: Remap, p: int) -> bool {
    old.states.entries@[p].1.edited || remap.levels@.contains_key(
        old.states.entries@[p].1.value.level_address,
    )
}

/// `[lo, lo + n)` meets no room of a palette or level data written in place.
pub open spec fn clear_of_in_place(old: SuperMetroid, lo: int, n: int) -> bool {
    &&& forall|p: int|
        0 <= p < old.palettes.entries@.len() && palette_in_place((#[trigger] old.palettes.entries@[p]).1)
            ==> apart(old.palettes.entries@[p].0 as int, old.palettes.entries@[p].1.size as int, lo, n)
    &&& forall|q: int|
        0 <= q < old.levels.entries@.len() && level_in_place((#[trigger] old.levels.entries@[q]).1)
            ==> apart(old.levels.entries@[q].0 as int, old.levels.entries@[q].1.size as int, lo, n)
}

/// `[lo, lo + n)` meets no rewritten state record but number `except`.
pub open spec fn clear_of_states(old: SuperMetroid, remap: Remap, lo: int, n: int, except: int) -> bool {
    forall|p: int|
        0 <= p < old.states.entries@.len() && p != except && #[trigger] state_written(old, remap, p)
            ==> apart(old.states.entries@[p].0 as int, STATE_BYTES as int, lo, n)
}

/// What a successful save did: `new` is `old` written back, with the moved
/// palettes and level data at the addresses `remap` gives and nothing else in
/// `remap`; every reference retargeted; every edited palette and level data,
/// and every rewritten tileset and state record, decoding from the image at
/// its address unless its bytes share room with another in-place write; and
/// every byte that no write touched as it was.
pub open spec fn saved(old: SuperMetroid, new: SuperMetroid, remap: Remap) -> bool {
    &&& new.wf()
    &&& remap.palettes.wf()
    &&& remap.levels.wf()
    &&& nothing_edited(new)
    &&& new.rom@.len() >= old.rom@.len()
    &&& forall|x: int|
        0 <= x < old.rom@.len() && !rewritten(old, remap, x) ==> #[trigger] new.rom@[x] == old.rom@[x]
    &&& forall|j: int|
        0 <= j < old.tilesets@.len() && #[trigger] tileset_written(old, remap, j) && clear_of_states(
            old,
            remap,
            TILESET_TABLE_PC + TILESET_BYTES * j,
            TILESET_BYTES as int,
            -1,
        ) && clear_of_in_place(old, TILESET_TABLE_PC + TILESET_BYTES * j, TILESET_BYTES as int)
            ==> tileset_at(new.rom@, TILESET_TABLE_PC + TILESET_BYTES * j) == Some(new.tilesets@[j].value)
    &&& forall|p: int|
        0 <= p < old.states.entries@.len() && #[trigger] state_written(old, remap, p) && clear_of_states(
            old,
            remap,
            old.states.entries@[p].0 as int,
            STATE_BYTES as int,
            p,
        ) && clear_of_in_place(old, old.states.entries@[p].0 as int, STATE_BYTES as int) ==> state_at(
            new.rom@,
            new.states.entries@[p].0 as int,
        ) == Some(new.states.entries@[p].1.value)
    &&& new.rooms == old.rooms
    &&& new.graphics == old.graphics
    &&& new.tile_tables == old.tile_tables
    &&& new.palettes.entries@.len() == old.palettes.entries@.len()
    &&& forall|p: int|
        0 <= p < old.palettes.entries@.len() ==> {
            let o = old.palettes.entries@[p];
            let f = #[trigger] new.palettes.entries@[p];
            &&& f.1.value == o.1.value
            &&& f.0 == remapped(remap.palettes@, o.0)
            &&& remap.palettes@.contains_key(o.0) ==> {
                &&& o.1.edited
                &&& old.rom@.len() <= f.0
                &&& stream_at(new.rom@, f.0 as int) == Some(palette_bytes(f.1.value.colors@))
            }
        }
    &&& forall|p: int|
        0 <= p < old.palettes.entries@.len() && palette_in_place(
            (#[trigger] old.palettes.entries@[p]).1,
        ) && palette_room_apart(old, p) ==> stream_at(new.rom@, new.palettes.entries@[p].0 as int)
            == Some(palette_bytes(new.palettes.entries@[p].1.value.colors@))
    &&& forall|q: int|
        0 <= q < old.levels.entries@.len() && level_in_place((#[trigger] old.levels.entries@[q]).1)
            && level_room_apart(old, q) ==> stream_at(new.rom@, new.levels.entries@[q].0 as int) == Some(
            level_bytes(
                new.levels.entries@[q].1.value.layer1@,
                new.levels.entries@[q].1.value.bts@,
                new.levels.entries@[q].1.value.layer2@,
            ),
        )
    &&& forall|p: int|
        0 <= p < old.palettes.entries@.len() ==> (remap.palettes@.contains_key(
            old.palettes.entries@[p].0,
        ) <==> palette_moves(#[trigger] old.palettes.entries@[p].1))
    &&& forall|k: usize| #[trigger]
        remap.palettes@.contains_key(k) ==> exists|p: int|
            0 <= p < old.palettes.entries@.len() && (#[trigger] old.palettes.entries@[p]).0 == k
    &&& forall|p: int|
        0 <= p < old.levels.entries@.len() ==> (remap.levels@.contains_key(old.levels.entries@[p].0)
            <==> level_moves(#[trigger] old.levels.entries@[p].1))
    &&& forall|k: usize| #[trigger]
        remap.levels@.contains_key(k) ==> exists|p: int|
            0 <= p < old.levels.entries@.len() && (#[trigger] old.levels.entries@[p]).0 == k
    &&& new.levels.entries@.len() == old.levels.entries@.len()
    &&& forall|p: int|
        0 <= p < old.levels.entries@.len() ==> {
            let o = old.levels.entries@[p];
            let f = #[trigger] new.levels.entries@[p];
            &&& f.1.value == o.1.value
            &&& f.0 == remapped(remap.levels@, o.0)
            &&& remap.levels@.contains_key(o.0) ==> {
                &&& o.1.edited
                &&& old.rom@.len() <= f.0
                &&& stream_at(new.rom@, f.0 as int) == Some(
                    level_bytes(f.1.value.layer1@, f.1.value.bts@, f.1.value.layer2@),
                )
            }
        }
    &&& new.tilesets@.len() == old.tilesets@.len()
    &&& forall|j: int|
        0 <= j < old.tilesets@.len() ==> (#[trigger] new.tilesets@[j]).value == Tileset {
            palette: remapped(remap.palettes@, old.tilesets@[j].value.palette),
            ..old.tilesets@[j].value
        }
    &&& new.states.entries@.len() == old.states.entries@.len()
    &&& forall|p: int|
        0 <= p < old.states.entries@.len() ==> {
            let o = old.states.entries@[p];
            let f = #[trigger] new.states.entries@[p];
            &&& f.0 == o.0
            &&& f.1.value == State {
                level_address: remapped(remap.levels@, o.1.value.level_address),
                ..o.1.value
            }
        }
}

proof fn lemma_moved_stream(rom: Seq<u8>, at: int, enc: Seq<u8>, x: Seq<u8>)
    requires
        0 <= at,
        at + enc.len() <= rom.len(),
        rom.subrange(at, at + enc.len()) == enc,
        forall|t: Seq<u8>| #[trigger] decompress_spec(enc + t) == Some(x),
    ensures
        stream_at(rom, at) == Some(x),
{
    let t = rom.subrange(at + enc.len(), rom.len() as int);
    assert(rom.subrange(at, rom.len() as int) =~= enc + t);
    assert(decompress_spec(enc + t) == Some(x));
}

impl SuperMetroid {
    /// Writes every edited palette, level data, tileset and state back into
    /// the image. An entity whose encoding fits the room it had is written in
    /// place; a larger one goes to the end of the image, and the returned maps
    /// give its new address. Every tileset and state that pointed at a moved
    /// entity is retargeted and written too; the maps hold exactly the moved
    /// entities. In-place writes of palettes and level data come last, after
    /// all moves and record writes. Bytes that no write touches keep their
    /// value. With nothing edited, nothing changes and nothing moves. Exactly
    /// when the moved entities would take the image past the LoROM size limit,
    /// nothing changes and the result is `OutOfSpace`.
    #[verifier::spinoff_prover]
    #[verifier::rlimit(100)]
    pub fn save_to_rom(&mut self) -> (r: Result<Remap, SaveError>)
        requires
            old(self).wf(),
        ensures
            r.is_ok() ==> saved(*old(self), *final(self), r.unwrap()),
            r.is_ok() && nothing_edited(*old(self)) ==> *final(self) == *old(self)
                && r.unwrap().is_empty(),
            r.is_err() ==> *final(self) == *old(self),
            r.is_err() <==> old(self).rom@.len() + relocated_bytes(*old(self)) > LOROM_MAX_SIZE,
            nothing_edited(*old(self)) ==> r.is_ok(),
    {
        let ghost orig = *self;
        proof {
            assert forall|p: int| 0 <= p < self.palettes.entries@.len() implies (#[trigger] self.palettes.entries@[p]).1.value.wf() by {
                lemma_to_map_index(self.palettes.entries@, p);
                assert(self.palettes@.contains_key(self.palettes.entries@[p].0));
            }
            assert forall|p: int| 0 <= p < self.levels.entries@.len() implies (#[trigger] self.levels.entries@[p]).1.value.wf()
                && self.levels.entries@[p].1.value.layer1@.len() <= 0x7FFF by {
                lemma_to_map_index(self.levels.entries@, p);
                assert(self.levels@.contains_key(self.levels.entries@[p].0));
            }
        }
        let pal_enc = encode_palettes(&self.palettes);
        let lvl_enc = encode_levels(&self.levels);
        proof {
            let p = self.palettes.entries@;
            let l = self.levels.entries@;
            lemma_spill_matches(pal_enc@, Seq::new(p.len(), |k: int| palette_encoding(p[k].1)), p, p.len() as int);
            lemma_spill_matches(lvl_enc@, Seq::new(l.len(), |k: int| level_encoding(l[k].1)), l, l.len() as int);
            assert(relocated_bytes(*self) == spill(pal_enc@, p, p.len() as int) + spill(lvl_enc@, l, l.len() as int));
            lemma_spill_monotone(pal_enc@, p, 0, p.len() as int);
            lemma_spill_monotone(lvl_enc@, l, 0, l.len() as int);
        }
        proof {
            if nothing_edited(orig) {
                lemma_spill_zero(pal_enc@, self.palettes.entries@, pal_enc@.len() as int);
                lemma_spill_zero(lvl_enc@, self.levels.entries@, lvl_enc@.len() as int);
            }
        }
        if self.rom.len() > LOROM_MAX_SIZE {
            return Err(SaveError::OutOfSpace);
        }
        let budget = LOROM_MAX_SIZE - self.rom.len();
        let pal_total = match spill_total(&pal_enc, &self.palettes.entries, budget) {
            Some(t) => t,
            None => {
                return Err(SaveError::OutOfSpace);
            },
        };
        let lvl_total = match spill_total(&lvl_enc, &self.levels.entries, budget - pal_total) {
            Some(t) => t,
            None => {
                return Err(SaveError::OutOfSpace);
            },
        };
        let base: Ghost<int> = Ghost(self.rom@.len() as int);
        let mut remap = Remap { palettes: AddressMap::new(), levels: AddressMap::new() };
        proof {
            assert forall|p: int| 0 <= p < pal_enc@.len() implies (#[trigger] self.palettes.entries@[p]).0
                + self.palettes.entries@[p].1.size <= base@ by {
                lemma_to_map_index(self.palettes.entries@, p);
                assert(self.palettes@.contains_key(self.palettes.entries@[p].0));
            }
            assert forall|p: int| 0 <= p < lvl_enc@.len() implies (#[trigger] self.levels.entries@[p]).0
                + self.levels.entries@[p].1.size <= base@ by {
                lemma_to_map_index(self.levels.entries@, p);
                assert(self.levels@.contains_key(self.levels.entries@[p].0));
            }
            assert forall|p: int| 0 <= p < self.states.entries@.len() implies (#[trigger] self.states.entries@[p]).0
                + STATE_BYTES <= base@ by {
                lemma_to_map_index(self.states.entries@, p);
                assert(self.states@.contains_key(self.states.entries@[p].0));
            }
        }
        self.store_palettes(&pal_enc, &mut remap.palettes, base);
        let ghost after_pal = *self;
        self.store_levels(&lvl_enc, &mut remap.levels, base);
        let ghost after_lvl = *self;
        self.write_tilesets(base);
        let ghost after_ts = *self;
        self.write_states(base);
        let ghost after_st = *self;
        proof {
            assert forall|k: int|
                0 <= k < pal_enc@.len() && (#[trigger] self.palettes.entries@[k]).1.edited implies pal_enc@[k]@.len()
                    <= self.palettes.entries@[k].1.size && self.palettes.entries@[k].0
                    + self.palettes.entries@[k].1.size <= base@ by {
                assert(self.palettes.entries@[k] == after_pal.palettes.entries@[k]);
            }
        }
        self.write_palettes_in_place(&pal_enc, base);
        let ghost after_pb = *self;
        proof {
            assert forall|k: int|
                0 <= k < lvl_enc@.len() && (#[trigger] self.levels.entries@[k]).1.edited implies lvl_enc@[k]@.len()
                    <= self.levels.entries@[k].1.size && self.levels.entries@[k].0
                    + self.levels.entries@[k].1.size <= base@ by {
                assert(self.levels.entries@[k] == after_lvl.levels.entries@[k]);
                assert(orig.levels.entries@[k] == after_pal.levels.entries@[k]);
            }
        }
        self.write_levels_in_place(&lvl_enc, base);
        proof {
            let fin = *self;
            assert forall|p: int| 0 <= p < orig.palettes.entries@.len() implies {
                let o = orig.palettes.entries@[p];
                let f = #[trigger] fin.palettes.entries@[p];
                &&& f.1.value == o.1.value
                &&& f.0 == remapped(remap.palettes@, o.0)
                &&& remap.palettes@.contains_key(o.0) ==> {
                    &&& o.1.edited
                    &&& orig.rom@.len() <= f.0
                    &&& stream_at(fin.rom@, f.0 as int) == Some(palette_bytes(f.1.value.colors@))
                }
            } by {
                let o = orig.palettes.entries@[p];
                let f = fin.palettes.entries@[p];
                let ap = after_pal.palettes.entries@[p];
                assert(after_st.palettes.entries@[p] == ap);
                assert(f.0 == ap.0 && f.1.value == ap.1.value && f.1.size == ap.1.size);
                if moves(pal_enc@, orig.palettes.entries@, p) {
                    let e = pal_enc@[p]@;
                    assert(after_pal.rom@.subrange(f.0 as int, f.0 + e.len()) == e);
                    assert(fin.rom@.subrange(f.0 as int, f.0 + e.len()) =~= after_pal.rom@.subrange(
                        f.0 as int,
                        f.0 + e.len(),
                    ));
                    lemma_moved_stream(fin.rom@, f.0 as int, e, palette_bytes(f.1.value.colors@));
                } else {
                    assert(!remap.palettes@.contains_key(o.0));
                }
            }
            assert forall|p: int| 0 <= p < orig.levels.entries@.len() implies {
                let o = orig.levels.entries@[p];
                let f = #[trigger] fin.levels.entries@[p];
                &&& f.1.value == o.1.value
                &&& f.0 == remapped(remap.levels@, o.0)
                &&& remap.levels@.contains_key(o.0) ==> {
                    &&& o.1.edited
                    &&& orig.rom@.len() <= f.0
                    &&& stream_at(fin.rom@, f.0 as int) == Some(
                        level_bytes(f.1.value.layer1@, f.1.value.bts@, f.1.value.layer2@),
                    )
                }
            } by {
                let o = orig.levels.entries@[p];
                let f = fin.levels.entries@[p];
                assert(o == after_pal.levels.entries@[p]);
                let al = after_lvl.levels.entries@[p];
                assert(after_pb.levels.entries@[p] == al);
                assert(f.0 == al.0 && f.1.value == al.1.value && f.1.size == al.1.size);
                if moves(lvl_enc@, orig.levels.entries@, p) {
                    let e = lvl_enc@[p]@;
                    assert(after_lvl.rom@.subrange(f.0 as int, f.0 + e.len()) == e);
                    assert(fin.rom@.subrange(f.0 as int, f.0 + e.len()) =~= after_lvl.rom@.subrange(
                        f.0 as int,
                        f.0 + e.len(),
                    ));
                    lemma_moved_stream(
                        fin.rom@,
                        f.0 as int,
                        e,
                        level_bytes(f.1.value.layer1@, f.1.value.bts@, f.1.value.layer2@),
                    );
                } else {
                    assert(!remap.levels@.contains_key(o.0));
                }
            }
            assert forall|j: int| 0 <= j < orig.tilesets@.len() implies (#[trigger] fin.tilesets@[j]).value == Tileset {
                palette: remapped(remap.palettes@, orig.tilesets@[j].value.palette),
                ..orig.tilesets@[j].value
            } by {
                assert(fin.tilesets@[j] == after_ts.tilesets@[j]);
                assert(after_ts.tilesets@[j].value == after_lvl.tilesets@[j].value);
                assert(after_lvl.tilesets@[j] == after_pal.tilesets@[j]);
            }
            assert forall|p: int| 0 <= p < orig.states.entries@.len() implies {
                let o = orig.states.entries@[p];
                let f = #[trigger] fin.states.entries@[p];
                &&& f.0 == o.0
                &&& f.1.value == State {
                    level_address: remapped(remap.levels@, o.1.value.level_address),
                    ..o.1.value
                }
            } by {
                assert(orig.states.entries@[p] == after_pal.states.entries@[p]);
                assert(after_ts.states.entries@[p] == after_lvl.states.entries@[p]);
            }
            assert forall|p: int|
                0 <= p < orig.palettes.entries@.len() && palette_in_place(
                    (#[trigger] orig.palettes.entries@[p]).1,
                ) && palette_room_apart(orig, p) implies stream_at(fin.rom@, fin.palettes.entries@[p].0 as int)
                == Some(palette_bytes(fin.palettes.entries@[p].1.value.colors@)) by {
                let f = fin.palettes.entries@[p];
                let o = orig.palettes.entries@[p];
                let ap = after_pal.palettes.entries@[p];
                let e = pal_enc@[p]@;
                assert(after_st.palettes.entries@[p] == ap);
                assert(moves(pal_enc@, orig.palettes.entries@, p) == palette_moves(o.1));
                assert forall|j: int| 0 <= j < pal_enc@.len() && j != p && after_st.palettes.entries@[j].1.edited implies apart(
                    after_st.palettes.entries@[j].0 as int,
                    after_st.palettes.entries@[j].1.size as int,
                    after_st.palettes.entries@[p].0 as int,
                    after_st.palettes.entries@[p].1.size as int,
                ) by {
                    assert(after_st.palettes.entries@[j] == after_pal.palettes.entries@[j]);
                    assert(moves(pal_enc@, orig.palettes.entries@, j) == palette_moves(orig.palettes.entries@[j].1));
                    assert(palette_in_place(orig.palettes.entries@[j].1));
                }
                assert(after_pb.rom@.subrange(f.0 as int, f.0 + e.len()) == e);
                assert forall|x: int| f.0 <= x < f.0 + e.len() implies fin.rom@[x] == after_pb.rom@[x] by {
                    assert forall|q: int| 0 <= q < lvl_enc@.len() && (#[trigger] after_pb.levels.entries@[q]).1.edited implies !(
                        after_pb.levels.entries@[q].0 <= x < after_pb.levels.entries@[q].0 + after_pb.levels.entries@[q].1.size) by {
                        assert(after_pb.levels.entries@[q] == after_lvl.levels.entries@[q]);
                        assert(orig.levels.entries@[q] == after_pal.levels.entries@[q]);
                        assert(moves(lvl_enc@, orig.levels.entries@, q) == level_moves(orig.levels.entries@[q].1));
                        assert(level_in_place(orig.levels.entries@[q].1));
                    }
                }
                assert(fin.rom@.subrange(f.0 as int, f.0 + e.len()) =~= after_pb.rom@.subrange(f.0 as int, f.0 + e.len()));
                lemma_moved_stream(fin.rom@, f.0 as int, e, palette_bytes(f.1.value.colors@));
            }
            assert forall|q: int|
                0 <= q < orig.levels.entries@.len() && level_in_place((#[trigger] orig.levels.entries@[q]).1)
                    && level_room_apart(orig, q) implies stream_at(fin.rom@, fin.levels.entries@[q].0 as int) == Some(
                level_bytes(
                    fin.levels.entries@[q].1.value.layer1@,
                    fin.levels.entries@[q].1.value.bts@,
                    fin.levels.entries@[q].1.value.layer2@,
                ),
            ) by {
                let f = fin.levels.entries@[q];
                let o = orig.levels.entries@[q];
                let e = lvl_enc@[q]@;
                assert(o == after_pal.levels.entries@[q]);
                assert(after_pb.levels.entries@[q] == after_lvl.levels.entries@[q]);
                assert(moves(lvl_enc@, orig.levels.entries@, q) == level_moves(o.1));
                assert forall|j: int| 0 <= j < lvl_enc@.len() && j != q && after_pb.levels.entries@[j].1.edited implies apart(
                    after_pb.levels.entries@[j].0 as int,
                    after_pb.levels.entries@[j].1.size as int,
                    after_pb.levels.entries@[q].0 as int,
                    after_pb.levels.entries@[q].1.size as int,
                ) by {
                    assert(after_pb.levels.entries@[j] == after_lvl.levels.entries@[j]);
                    assert(orig.levels.entries@[j] == after_pal.levels.entries@[j]);
                    assert(moves(lvl_enc@, orig.levels.entries@, j) == level_moves(orig.levels.entries@[j].1));
                    assert(level_in_place(orig.levels.entries@[j].1));
                }
                assert(fin.rom@.subrange(f.0 as int, f.0 + e.len()) == e);
                lemma_moved_stream(fin.rom@, f.0 as int, e, level_bytes(f.1.value.layer1@, f.1.value.bts@, f.1.value.layer2@));
            }
            assert forall|x: int|
                0 <= x < orig.rom@.len() && !rewritten(orig, remap, x) implies #[trigger] fin.rom@[x] == orig.rom@[x] by {
                assert(after_pal.rom@[x] == orig.rom@[x]);
                assert(after_lvl.rom@[x] == after_pal.rom@[x]);
                assert forall|j: int| 0 <= j < after_lvl.tilesets@.len() && (#[trigger] after_lvl.tilesets@[j]).edited implies !(
                    TILESET_TABLE_PC + TILESET_BYTES * j <= x < TILESET_TABLE_PC + TILESET_BYTES * j + TILESET_BYTES) by {
                    assert(after_lvl.tilesets@[j] == after_pal.tilesets@[j]);
                    assert(orig.tilesets@[j].edited || remap.palettes@.contains_key(orig.tilesets@[j].value.palette));
                }
                assert(after_ts.rom@[x] == after_lvl.rom@[x]);
                assert forall|p: int| 0 <= p < after_ts.states.entries@.len() && (#[trigger] after_ts.states.entries@[p]).1.edited implies !(
                    after_ts.states.entries@[p].0 <= x < after_ts.states.entries@[p].0 + STATE_BYTES) by {
                    assert(after_ts.states.entries@[p] == after_lvl.states.entries@[p]);
                    assert(orig.states.entries@[p] == after_pal.states.entries@[p]);
                    assert(orig.states.entries@[p].1.edited || remap.levels@.contains_key(orig.states.entries@[p].1.value.level_address));
                }
                assert(after_st.rom@[x] == after_ts.rom@[x]);
                assert forall|p: int| 0 <= p < pal_enc@.len() && (#[trigger] after_st.palettes.entries@[p]).1.edited implies !(
                    after_st.palettes.entries@[p].0 <= x < after_st.palettes.entries@[p].0 + after_st.palettes.entries@[p].1.size) by {
                    assert(after_st.palettes.entries@[p] == after_pal.palettes.entries@[p]);
                    assert(moves(pal_enc@, orig.palettes.entries@, p) == palette_moves(orig.palettes.entries@[p].1));
                    assert(palette_in_place(orig.palettes.entries@[p].1));
                }
                assert(after_pb.rom@[x] == after_st.rom@[x]);
                assert forall|q: int| 0 <= q < lvl_enc@.len() && (#[trigger] after_pb.levels.entries@[q]).1.edited implies !(
                    after_pb.levels.entries@[q].0 <= x < after_pb.levels.entries@[q].0 + after_pb.levels.entries@[q].1.size) by {
                    assert(after_pb.levels.entries@[q] == after_lvl.levels.entries@[q]);
                    assert(orig.levels.entries@[q] == after_pal.levels.entries@[q]);
                    assert(moves(lvl_enc@, orig.levels.entries@, q) == level_moves(orig.levels.entries@[q].1));
                    assert(level_in_place(orig.levels.entries@[q].1));
                }
            }
            assert forall|j: int|
                0 <= j < orig.tilesets@.len() && #[trigger] tileset_written(orig, remap, j) && clear_of_states(
                    orig,
                    remap,
                    TILESET_TABLE_PC + TILESET_BYTES * j,
                    TILESET_BYTES as int,
                    -1,
                ) && clear_of_in_place(orig, TILESET_TABLE_PC + TILESET_BYTES * j, TILESET_BYTES as int)
                    implies tileset_at(fin.rom@, TILESET_TABLE_PC + TILESET_BYTES * j) == Some(fin.tilesets@[j].value) by {
                let lo = TILESET_TABLE_PC + TILESET_BYTES * j;
                let t = after_lvl.tilesets@[j];
                assert(t == after_pal.tilesets@[j]);
                assert(t.edited);
                assert(after_ts.rom@.subrange(lo, lo + TILESET_BYTES) == tileset_bytes(t.value));
                assert forall|x: int| lo <= x < lo + TILESET_BYTES implies fin.rom@[x] == after_ts.rom@[x] by {
                    assert forall|p: int| 0 <= p < after_ts.states.entries@.len() && (#[trigger] after_ts.states.entries@[p]).1.edited implies !(
                        after_ts.states.entries@[p].0 <= x < after_ts.states.entries@[p].0 + STATE_BYTES) by {
                        assert(after_ts.states.entries@[p] == after_lvl.states.entries@[p]);
                        assert(orig.states.entries@[p] == after_pal.states.entries@[p]);
                        assert(state_written(orig, remap, p));
                    }
                    assert forall|p: int| 0 <= p < pal_enc@.len() && (#[trigger] after_st.palettes.entries@[p]).1.edited implies !(
                        after_st.palettes.entries@[p].0 <= x < after_st.palettes.entries@[p].0 + after_st.palettes.entries@[p].1.size) by {
                        assert(after_st.palettes.entries@[p] == after_pal.palettes.entries@[p]);
                        assert(moves(pal_enc@, orig.palettes.entries@, p) == palette_moves(orig.palettes.entries@[p].1));
                        assert(palette_in_place(orig.palettes.entries@[p].1));
                    }
                    assert forall|q: int| 0 <= q < lvl_enc@.len() && (#[trigger] after_pb.levels.entries@[q]).1.edited implies !(
                        after_pb.levels.entries@[q].0 <= x < after_pb.levels.entries@[q].0 + after_pb.levels.entries@[q].1.size) by {
                        assert(after_pb.levels.entries@[q] == after_lvl.levels.entries@[q]);
                        assert(orig.levels.entries@[q] == after_pal.levels.entries@[q]);
                        assert(moves(lvl_enc@, orig.levels.entries@, q) == level_moves(orig.levels.entries@[q].1));
                        assert(level_in_place(orig.levels.entries@[q].1));
                    }
                }
                assert(fin.rom@.subrange(lo, lo + TILESET_BYTES) =~= after_ts.rom@.subrange(lo, lo + TILESET_BYTES));
                assert(after_lvl.tilesets@[j].value.valid());
                assert(fin.tilesets@[j].value == t.value);
                lemma_tileset_at_bytes(fin.rom@, lo, t.value);
            }
            assert forall|p: int|
                0 <= p < orig.states.entries@.len() && #[trigger] state_written(orig, remap, p) && clear_of_states(
                    orig,
                    remap,
                    orig.states.entries@[p].0 as int,
                    STATE_BYTES as int,
                    p,
                ) && clear_of_in_place(orig, orig.states.entries@[p].0 as int, STATE_BYTES as int) implies state_at(
                    fin.rom@,
                    fin.states.entries@[p].0 as int,
                ) == Some(fin.states.entries@[p].1.value) by {
                let e = after_ts.states.entries@[p];
                let lo = e.0 as int;
                assert(e == after_lvl.states.entries@[p]);
                assert(orig.states.entries@[p] == after_pal.states.entries@[p]);
                assert(e.1.edited);
                assert forall|q: int| 0 <= q < after_ts.states.entries@.len() && q != p && after_ts.states.entries@[q].1.edited implies apart(
                    after_ts.states.entries@[q].0 as int,
                    STATE_BYTES as int,
                    lo,
                    STATE_BYTES as int,
                ) by {
                    assert(after_ts.states.entries@[q] == after_lvl.states.entries@[q]);
                    assert(orig.states.entries@[q] == after_pal.states.entries@[q]);
                    assert(state_written(orig, remap, q));
                }
                assert(after_st.rom@.subrange(lo, lo + STATE_BYTES) == state_bytes(e.1.value));
                assert forall|x: int| lo <= x < lo + STATE_BYTES implies fin.rom@[x] == after_st.rom@[x] by {
                    assert forall|k: int| 0 <= k < pal_enc@.len() && (#[trigger] after_st.palettes.entries@[k]).1.edited implies !(
                        after_st.palettes.entries@[k].0 <= x < after_st.palettes.entries@[k].0 + after_st.palettes.entries@[k].1.size) by {
                        assert(after_st.palettes.entries@[k] == after_pal.palettes.entries@[k]);
                        assert(moves(pal_enc@, orig.palettes.entries@, k) == palette_moves(orig.palettes.entries@[k].1));
                        assert(palette_in_place(orig.palettes.entries@[k].1));
                    }
                    assert forall|q: int| 0 <= q < lvl_enc@.len() && (#[trigger] after_pb.levels.entries@[q]).1.edited implies !(
                        after_pb.levels.entries@[q].0 <= x < after_pb.levels.entries@[q].0 + after_pb.levels.entries@[q].1.size) by {
                        assert(after_pb.levels.entries@[q] == after_lvl.levels.entries@[q]);
                        assert(orig.levels.entries@[q] == after_pal.levels.entries@[q]);
                        assert(moves(lvl_enc@, orig.levels.entries@, q) == level_moves(orig.levels.entries@[q].1));
                        assert(level_in_place(orig.levels.entries@[q].1));
                    }
                }
                assert(fin.rom@.subrange(lo, lo + STATE_BYTES) =~= after_st.rom@.subrange(lo, lo + STATE_BYTES));
                assert(fin.states.entries@[p].0 == e.0 && fin.states.entries@[p].1.value == e.1.value);
                lemma_to_map_index(after_lvl.states.entries@, p);
                assert(after_lvl.states@.contains_key(e.0));
                lemma_state_at_bytes(fin.rom@, lo, e.1.value);
            }
            assert(nothing_edited(fin));
            assert forall|p: int| 0 <= p < orig.palettes.entries@.len() implies (remap.palettes@.contains_key(
                orig.palettes.entries@[p].0,
            ) <==> palette_moves(#[trigger] orig.palettes.entries@[p].1)) by {
                assert(moves(pal_enc@, orig.palettes.entries@, p) == palette_moves(orig.palettes.entries@[p].1));
            }
            assert forall|p: int| 0 <= p < orig.levels.entries@.len() implies (remap.levels@.contains_key(
                orig.levels.entries@[p].0,
            ) <==> level_moves(#[trigger] orig.levels.entries@[p].1)) by {
                assert(orig.levels.entries@[p] == after_pal.levels.entries@[p]);
                assert(moves(lvl_enc@, orig.levels.entries@, p) == level_moves(orig.levels.entries@[p].1));
            }
            assert forall|k: usize| #[trigger] remap.levels@.contains_key(k) implies exists|p: int|
                0 <= p < orig.levels.entries@.len() && (#[trigger] orig.levels.entries@[p]).0 == k by {
                let j = choose|j: int| 0 <= j < lvl_enc@.len() && after_pal.levels.entries@[j].0 == k;
                assert(orig.levels.entries@[j] == after_pal.levels.entries@[j]);
            }
            assert(saved(orig, fin, remap));
            if nothing_edited(orig) {
                assert(after_pal == orig);
                assert(after_lvl == after_pal);
                assert(after_ts == after_lvl);
                assert(after_st == after_ts);
                assert(after_pb == after_st);
                assert(fin == after_pb);
            }
        }
        Ok(remap)
    }
}

} // verus!

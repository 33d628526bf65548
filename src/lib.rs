//! A verified codec for Super Metroid ROM images: address mapping, the
//! native compression scheme, palettes, 4bpp graphics, tile tables, rooms,
//! states, level data, and an address-keyed aggregate that loads a ROM and
//! saves edits back into it.

pub mod address;
pub mod address_map;
pub mod compression;
pub mod editing;
pub mod palette;
pub mod gfx;
pub mod laws;
pub mod tile_table;
pub mod level;
pub mod room;
pub mod save;
pub mod super_metroid;

//! SNES LoROM address mapping and bounds-checked little-endian reads.
use vstd::prelude::*;

verus! {

/// Size of one LoROM bank as seen in the file.
pub const BANK_SIZE: usize = 0x8000;

/// Largest file size that LoROM addressing covers (128 banks).
pub const LOROM_MAX_SIZE: usize = 0x40_0000;

/// A read or write would go past the end of the buffer.
#[derive(Debug, Clone, Copy, PartialEq, Eq, Structural)]
pub struct OutOfBounds;

/// The banked SNES address that a file offset maps to.
pub open spec fn pc_to_snes_spec(pc: int) -> int {
    (pc / 0x8000 + 0x80) * 0x10000 + pc % 0x8000 + 0x8000
}

/// Whether `addr` lies in the ROM half of a LoROM bank.
pub open spec fn is_lorom_address(addr: int) -> bool {
    0x80_0000 <= addr < 0x100_0000 && addr % 0x10000 >= 0x8000
}

/// The file offset of a LoROM address.
pub open spec fn snes_to_pc_spec(addr: int) -> int {
    (addr / 0x10000 - 0x80) * 0x8000 + (addr % 0x10000 - 0x8000)
}

/// Maps a file offset to the banked SNES address.
pub fn pc_to_snes(pc: usize) -> (r: u32)
    requires
        pc < LOROM_MAX_SIZE,
    ensures
        r as int == pc_to_snes_spec(pc as int),
        is_lorom_address(r as int),
        snes_to_pc_spec(r as int) == pc as int,
{
    let bank = (pc / BANK_SIZE) as u32;
    let offset = (pc % BANK_SIZE) as u32;
    (bank + 0x80) * 0x10000 + offset + 0x8000
}

/// Maps a LoROM address to a file offset; `None` for any other address.
pub fn snes_to_pc(addr: u32) -> (r: Option<usize>)
    ensures
        r.is_some() <==> is_lorom_address(addr as int),
        r.is_some() ==> r.unwrap() as int == snes_to_pc_spec(addr as int) && r.unwrap()
            < LOROM_MAX_SIZE && pc_to_snes_spec(r.unwrap() as int) == addr as int,
{
    if addr < 0x80_0000 || addr >= 0x100_0000 || addr % 0x10000 < 0x8000 {
        None
    } else {
        let bank = (addr / 0x10000 - 0x80) as usize;
        let offset = (addr % 0x10000 - 0x8000) as usize;
        Some(bank * BANK_SIZE + offset)
    }
}

/// The little-endian 16-bit value at `i`.
pub open spec fn u16_at(b: Seq<u8>, i: int) -> int {
    b[i] as int + 256 * b[i + 1] as int
}

/// The little-endian 24-bit value at `i`.
pub open spec fn u24_at(b: Seq<u8>, i: int) -> int {
    b[i] as int + 256 * b[i + 1] as int + 65536 * b[i + 2] as int
}

/// The little-endian bytes of a 16-bit value.
pub open spec fn u16_bytes(v: int) -> Seq<u8> {
    seq![(v % 256) as u8, (v / 256 % 256) as u8]
}

/// The little-endian bytes of a 24-bit value.
pub open spec fn u24_bytes(v: int) -> Seq<u8> {
    seq![(v % 256) as u8, (v / 256 % 256) as u8, (v / 65536 % 256) as u8]
}

/// Reads the byte at `pos`.
pub fn read_u8(b: &[u8], pos: usize) -> (r: Result<u8, OutOfBounds>)
    ensures
        r.is_ok() <==> pos < b@.len(),
        r.is_ok() ==> r.unwrap() == b@[pos as int],
{
    if pos < b.len() {
        Ok(b[pos])
    } else {
        Err(OutOfBounds)
    }
}

/// Reads the little-endian 16-bit value at `pos`.
pub fn read_u16(b: &[u8], pos: usize) -> (r: Result<u16, OutOfBounds>)
    ensures
        r.is_ok() <==> pos + 2 <= b@.len(),
        r.is_ok() ==> r.unwrap() as int == u16_at(b@, pos as int),
{
    if pos < b.len() && b.len() - pos >= 2 {
        Ok(b[pos] as u16 + 256 * (b[pos + 1] as u16))
    } else {
        Err(OutOfBounds)
    }
}

/// Reads the little-endian 24-bit value at `pos`.
pub fn read_u24(b: &[u8], pos: usize) -> (r: Result<u32, OutOfBounds>)
    ensures
        r.is_ok() <==> pos + 3 <= b@.len(),
        r.is_ok() ==> r.unwrap() as int == u24_at(b@, pos as int),
{
    if pos < b.len() && b.len() - pos >= 3 {
        Ok(b[pos] as u32 + 256 * (b[pos + 1] as u32) + 65536 * (b[pos + 2] as u32))
    } else {
        Err(OutOfBounds)
    }
}

/// Appends the little-endian bytes of a 16-bit value.
pub fn push_u16(out: &mut Vec<u8>, v: u16)
    ensures
        final(out)@ == old(out)@ + u16_bytes(v as int),
{
    out.push((v % 256) as u8);
    out.push((v / 256) as u8);
    assert(final(out)@ =~= old(out)@ + u16_bytes(v as int));
}

/// Appends the little-endian bytes of a 24-bit value.
pub fn push_u24(out: &mut Vec<u8>, v: u32)
    requires
        v < 0x100_0000,
    ensures
        final(out)@ == old(out)@ + u24_bytes(v as int),
{
    out.push((v % 256) as u8);
    out.push((v / 256 % 256) as u8);
    out.push((v / 65536) as u8);
    assert(final(out)@ =~= old(out)@ + u24_bytes(v as int));
}

/// Overwrites `b[pos..pos + data.len()]` with `data`.
pub fn write_bytes(b: &mut Vec<u8>, pos: usize, data: &[u8]) -> (r: Result<(), OutOfBounds>)
    ensures
        r.is_ok() <==> pos + data@.len() <= old(b)@.len(),
        r.is_ok() ==> final(b)@ == old(b)@.subrange(0, pos as int) + data@ + old(b)@.subrange(
            pos + data@.len(),
            old(b)@.len() as int,
        ),
        r.is_err() ==> final(b)@ == old(b)@,
{
    if pos > b.len() || data.len() > b.len() - pos {
        return Err(OutOfBounds);
    }
    let mut i: usize = 0;
    while i < data.len()
        invariant
            pos + data@.len() <= b@.len(),
            pos + data@.len() <= usize::MAX,
            b@.len() == old(b)@.len(),
            0 <= i <= data@.len(),
            forall|k: int| 0 <= k < pos ==> b@[k] == old(b)@[k],
            forall|k: int| pos <= k < pos + i ==> b@[k] == data@[k - pos],
            forall|k: int| pos + i <= k < b@.len() ==> b@[k] == old(b)@[k],
        decreases data@.len() - i,
    {
        b.set(pos + i, data[i]);
        i += 1;
    }
    assert(b@ =~= old(b)@.subrange(0, pos as int) + data@ + old(b)@.subrange(
        pos + data@.len(),
        old(b)@.len() as int,
    ));
    Ok(())
}

} // verus!

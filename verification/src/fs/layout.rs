//! Byte layout of the two kinds of sector the filesystem keeps on a drive.
//!
//! A directory table holds a continuation address (bytes 0..4), eight slots
//! of 63 bytes (a 58-byte NUL-padded name, a type byte, a 4-byte address) and
//! the signature `POGO` in its last four bytes. A data sector holds a
//! continuation address, a 2-byte payload length and up to 506 payload bytes.
//! All integers are big-endian.

use crate::bits::{be16, be16_byte, be32, be32_byte, lemma_be16_of_bytes, lemma_be32_of_bytes, lemma_be32_zero, lemma_bytes_of_be16};
use vstd::prelude::*;

verus! {

/// One occupied slot of a directory table.
pub struct Entry {
    pub name: Seq<char>,
    pub is_dir: bool,
    pub addr: u32,
}

/// Slots per directory-table sector.
pub const SLOTS: usize = 8;

/// Payload bytes per data sector.
pub const PAYLOAD: usize = 506;

/// Longest name a slot can hold.
pub const NAME_LEN: usize = 58;

/// A sector of 512 zero bytes.
pub open spec fn blank() -> Seq<u8> {
    Seq::new(512, |i: int| 0u8)
}

/// What a read of address `a` yields: the sector there, or zeros when the
/// address lies past the end of the disk.
pub open spec fn sector_at(disk: Seq<[u8; 512]>, a: u32) -> Seq<u8> {
    if a < disk.len() {
        disk[a as int]@
    } else {
        blank()
    }
}

/// The continuation address in the first four bytes of a sector.
pub open spec fn link_of(s: Seq<u8>) -> u32 {
    be32(s[0], s[1], s[2], s[3])
}

/// Whether the sector ends in the signature `POGO`, which marks a live
/// directory table.
pub open spec fn has_magic(s: Seq<u8>) -> bool {
    s[508] == 0x50 && s[509] == 0x4f && s[510] == 0x47 && s[511] == 0x4f
}

/// The name stored in a NUL-padded field: its bytes up to the first NUL,
/// each read as the character with that code.
pub open spec fn name_chars(raw: Seq<u8>) -> Seq<char>
    decreases raw.len(),
{
    if raw.len() == 0 || raw[0] == 0 {
        Seq::empty()
    } else {
        seq![raw[0] as char] + name_chars(raw.drop_first())
    }
}

/// Offset of slot `i` within a directory table.
pub open spec fn slot_base(i: int) -> int {
    4 + 63 * i
}

/// The address stored in slot `i`; 0 marks the slot as empty.
pub open spec fn slot_addr(s: Seq<u8>, i: int) -> u32 {
    be32(s[slot_base(i) + 59], s[slot_base(i) + 60], s[slot_base(i) + 61], s[slot_base(i) + 62])
}

/// Slot `i` read as an entry.
pub open spec fn slot_entry(s: Seq<u8>, i: int) -> Entry {
    Entry {
        name: name_chars(s.subrange(slot_base(i), slot_base(i) + 58)),
        is_dir: s[slot_base(i) + 58] != 0,
        addr: slot_addr(s, i),
    }
}

/// The occupied slots among the first `n`, in slot order.
pub open spec fn entries_upto(s: Seq<u8>, n: int) -> Seq<Entry>
    decreases n,
{
    if n <= 0 {
        Seq::empty()
    } else if slot_addr(s, n - 1) != 0 {
        entries_upto(s, n - 1).push(slot_entry(s, n - 1))
    } else {
        entries_upto(s, n - 1)
    }
}

/// The entries of a directory-table sector: its occupied slots in order.
pub open spec fn sector_entries(s: Seq<u8>) -> Seq<Entry> {
    entries_upto(s, 8)
}

/// A name that fits a slot: at most 58 characters, each with a code from 1
/// to 255.
pub open spec fn name_ok(name: Seq<char>) -> bool {
    &&& name.len() <= 58
    &&& forall|o: int| 0 <= o < name.len() ==> 1 <= #[trigger] (name[o] as int) <= 255
}

/// An entry that a slot can hold and that reads back as occupied.
pub open spec fn entry_ok(e: Entry) -> bool {
    e.addr != 0 && name_ok(e.name)
}

/// A list of entries that one table sector can hold.
pub open spec fn entries_ok(es: Seq<Entry>) -> bool {
    &&& es.len() <= 8
    &&& forall|i: int| 0 <= i < es.len() ==> entry_ok(#[trigger] es[i])
}

/// Byte `o` of the 63-byte slot that stores `e`.
pub open spec fn slot_byte(e: Entry, o: int) -> u8 {
    if o < 58 {
        if o < e.name.len() {
            e.name[o] as u8
        } else {
            0
        }
    } else if o == 58 {
        if e.is_dir {
            1
        } else {
            0
        }
    } else {
        be32_byte(e.addr, o - 59)
    }
}

/// Byte `j` of the signature area: `POGO` at 508..512.
pub open spec fn magic_byte(j: int) -> u8 {
    if j == 508 {
        0x50
    } else if j == 509 {
        0x4f
    } else if j == 510 {
        0x47
    } else {
        0x4f
    }
}

/// Byte `j` of the table sector described by the arguments.
pub open spec fn table_byte(link: u32, es: Seq<Entry>, live: bool, j: int) -> u8 {
    if j < 4 {
        be32_byte(link, j)
    } else if j < 508 {
        if (j - 4) / 63 < es.len() {
            slot_byte(es[(j - 4) / 63], (j - 4) % 63)
        } else {
            0
        }
    } else if live {
        magic_byte(j)
    } else {
        0
    }
}

/// The sector that stores a directory table: continuation `link`, the
/// entries packed into the leading slots, and the signature when `live`.
pub open spec fn table_image(link: u32, es: Seq<Entry>, live: bool) -> Seq<u8> {
    Seq::new(512, |j: int| table_byte(link, es, live, j))
}

/// The payload length recorded in a data sector.
pub open spec fn size_of(s: Seq<u8>) -> u16 {
    be16(s[4], s[5])
}

/// The payload of a data sector: as many bytes after the header as the
/// recorded length says, at most 506.
pub open spec fn payload(s: Seq<u8>) -> Seq<u8> {
    s.subrange(6, 6 + if size_of(s) <= 506 { size_of(s) as int } else { 506 })
}

/// The sector that stores a data block with the given header and 506
/// payload bytes.
pub open spec fn data_image(link: u32, size: u16, data: Seq<u8>) -> Seq<u8> {
    Seq::new(
        512,
        |j: int|
            if j < 4 {
                be32_byte(link, j)
            } else if j < 6 {
                be16_byte(size, j - 4)
            } else {
                data[j - 6]
            },
    )
}

/// `name` followed by NULs up to a field of `width` bytes.
pub open spec fn padded(name: Seq<char>, width: int) -> Seq<u8> {
    Seq::new(width as nat, |o: int| if o < name.len() { name[o] as u8 } else { 0u8 })
}

/// A name read from a NUL-padded field of at most 58 bytes fits a slot.
pub proof fn lemma_name_chars_ok(raw: Seq<u8>)
    requires
        raw.len() <= 58,
    ensures
        name_ok(name_chars(raw)),
        name_chars(raw).len() <= raw.len(),
    decreases raw.len(),
{
    if raw.len() != 0 && raw[0] != 0 {
        lemma_name_chars_ok(raw.drop_first());
        let rest = name_chars(raw.drop_first());
        let all = seq![raw[0] as char] + rest;
        assert forall|o: int| 0 <= o < all.len() implies 1 <= #[trigger] (all[o] as int) <= 255 by {
            if o > 0 {
                assert(all[o] == rest[o - 1]);
            }
        }
    }
}

/// A name that fits a slot reads back unchanged from its padded field.
pub proof fn lemma_name_roundtrip(name: Seq<char>, width: int)
    requires
        name_ok(name),
        name.len() <= width,
    ensures
        name_chars(padded(name, width)) == name,
    decreases name.len(),
{
    let raw = padded(name, width);
    if name.len() == 0 {
        assert(name_chars(raw) =~= name);
    } else {
        assert(1 <= name[0] as int <= 255);
        assert(raw[0] == name[0] as u8);
        assert(raw[0] as char == name[0]);
        let tail = name.drop_first();
        assert(name_ok(tail)) by {
            assert forall|o: int| 0 <= o < tail.len() implies 1 <= #[trigger] (tail[o] as int) <= 255 by {
                assert(tail[o] == name[o + 1]);
            }
        }
        lemma_name_roundtrip(tail, width - 1);
        assert(raw.drop_first() =~= padded(tail, width - 1));
        assert(seq![name[0]] + tail =~= name);
    }
}

/// Byte `o` of slot `i` lies in that slot and at that offset.
pub proof fn lemma_slot_index(i: int, o: int)
    requires
        0 <= i < 8,
        0 <= o < 63,
    ensures
        (slot_base(i) + o - 4) / 63 == i,
        (slot_base(i) + o - 4) % 63 == o,
        4 <= slot_base(i) + o < 508,
{
}

/// Slot `i` of a table image holds entry `i`, or nothing past the last
/// entry.
pub proof fn lemma_table_image_slot(link: u32, es: Seq<Entry>, live: bool, i: int)
    requires
        entries_ok(es),
        0 <= i < 8,
    ensures
        i < es.len() ==> slot_addr(table_image(link, es, live), i) != 0 && slot_entry(
            table_image(link, es, live),
            i,
        ) == es[i],
        i >= es.len() ==> slot_addr(table_image(link, es, live), i) == 0,
{
    let s = table_image(link, es, live);
    let b = slot_base(i);
    lemma_slot_index(i, 58);
    lemma_slot_index(i, 59);
    lemma_slot_index(i, 60);
    lemma_slot_index(i, 61);
    lemma_slot_index(i, 62);
    assert(s[b + 59] == table_byte(link, es, live, b + 59));
    assert(s[b + 60] == table_byte(link, es, live, b + 60));
    assert(s[b + 61] == table_byte(link, es, live, b + 61));
    assert(s[b + 62] == table_byte(link, es, live, b + 62));
    assert(s[b + 58] == table_byte(link, es, live, b + 58));
    if i < es.len() {
        let e = es[i];
        assert(entry_ok(e));
        lemma_be32_of_bytes(e.addr);
        assert(slot_addr(s, i) == e.addr);
        assert(s.subrange(b, b + 58) =~= padded(e.name, 58)) by {
            assert forall|o: int| 0 <= o < 58 implies s.subrange(b, b + 58)[o] == padded(e.name, 58)[o] by {
                lemma_slot_index(i, o);
                assert(s[b + o] == table_byte(link, es, live, b + o));
            }
        }
        lemma_name_roundtrip(e.name, 58);
        assert(slot_entry(s, i).is_dir == e.is_dir);
    } else {
        lemma_be32_zero(0, 0, 0, 0);
    }
}

/// The occupied slots among the first `n` of a table image are its first
/// `n` entries.
pub proof fn lemma_table_image_upto(link: u32, es: Seq<Entry>, live: bool, n: int)
    requires
        entries_ok(es),
        0 <= n <= 8,
    ensures
        entries_upto(table_image(link, es, live), n) == es.take(if n <= es.len() { n } else { es.len() as int }),
    decreases n,
{
    let s = table_image(link, es, live);
    if n > 0 {
        lemma_table_image_upto(link, es, live, n - 1);
        lemma_table_image_slot(link, es, live, n - 1);
        if n - 1 < es.len() {
            assert(es.take(n - 1).push(es[n - 1]) =~= es.take(n));
        }
    } else {
        assert(es.take(0) =~= Seq::<Entry>::empty());
    }
}

/// A table image reads back as the table it was built from.
pub proof fn lemma_table_roundtrip(link: u32, es: Seq<Entry>, live: bool)
    requires
        entries_ok(es),
    ensures
        table_image(link, es, live).len() == 512,
        link_of(table_image(link, es, live)) == link,
        sector_entries(table_image(link, es, live)) == es,
        has_magic(table_image(link, es, live)) == live,
{
    let s = table_image(link, es, live);
    lemma_be32_of_bytes(link);
    lemma_table_image_upto(link, es, live, 8);
    assert(es.take(es.len() as int) =~= es);
}

/// A data image reads back with the header it was built from, and its
/// payload is the leading `size` bytes of the data.
pub proof fn lemma_data_roundtrip(link: u32, size: u16, data: Seq<u8>)
    requires
        data.len() == 506,
        size <= 506,
    ensures
        data_image(link, size, data).len() == 512,
        link_of(data_image(link, size, data)) == link,
        size_of(data_image(link, size, data)) == size,
        payload(data_image(link, size, data)) == data.take(size as int),
{
    let s = data_image(link, size, data);
    lemma_be32_of_bytes(link);
    lemma_be16_of_bytes(size);
    assert(payload(s) =~= data.take(size as int));
}

/// The sectors a table never has: one without signature has none to show,
/// and a blank sector is no live table.
pub proof fn lemma_blank_sector()
    ensures
        !has_magic(blank()),
        link_of(blank()) == 0,
        sector_entries(blank()) == Seq::<Entry>::empty(),
        size_of(blank()) == 0,
        payload(blank()) == Seq::<u8>::empty(),
{
    lemma_be32_zero(0, 0, 0, 0);
    lemma_bytes_of_be16(0, 0);
    lemma_blank_upto(8);
    assert(payload(blank()) =~= Seq::<u8>::empty());
}

/// A blank sector has no occupied slot.
pub proof fn lemma_blank_upto(n: int)
    requires
        0 <= n <= 8,
    ensures
        entries_upto(blank(), n) == Seq::<Entry>::empty(),
    decreases n,
{
    if n > 0 {
        lemma_blank_upto(n - 1);
        lemma_be32_zero(0, 0, 0, 0);
    }
}

/// A sector read as a table never shows more than eight entries, and each
/// of them fits a slot.
pub proof fn lemma_sector_entries_ok(s: Seq<u8>, n: int)
    requires
        s.len() == 512,
        0 <= n <= 8,
    ensures
        entries_upto(s, n).len() <= n,
        forall|i: int| 0 <= i < entries_upto(s, n).len() ==> entry_ok(#[trigger] entries_upto(s, n)[i]),
    decreases n,
{
    if n > 0 {
        lemma_sector_entries_ok(s, n - 1);
        lemma_name_chars_ok(s.subrange(slot_base(n - 1), slot_base(n - 1) + 58));
    }
}

} // verus!

//! Placing a new entry in a directory: finding the table that takes it,
//! linking a fresh table when all are full, and allocating the sector the
//! entry points at.

use crate::ata::{free_count, is_free, lemma_free_count_bound, lemma_free_count_update, lemma_top_free, lemma_nth_free_order, lemma_nth_free_shift, lemma_top_free_same, lemma_top_free_taken, nth_free, top_free, Drive};
use crate::bits::{be16_byte, lemma_be16_nonzero, lemma_zero_bytes};
use crate::fs::chain::{lemma_listed, listed};
use crate::fs::data::{filled, DataSector};
use crate::fs::sealed::{grew, lemma_grew};
use crate::fs::frame::{blocks_for, chunk, extends, lemma_locate_grow, lemma_locate_room, lemma_slot_for, lemma_stores, packed, room, slot_for, slot_table, stores, Slot};
use crate::fs::layout::{data_image, lemma_blank_sector, lemma_data_roundtrip, lemma_table_roundtrip, link_of, name_ok, payload, sector_at, size_of, table_image, entry_ok, Entry};
use crate::fs::table::{wrote, FileTableSector};
use crate::fs::tree::{entries_at, file_bytes, file_sectors, found, live, locate, next_at};
use vstd::slice::{slice_subrange, slice_to_vec};
use vstd::prelude::*;

verus! {

/// Finds the table in which the directory with head table `head` takes its
/// next entry, and tells whether a fresh table has to be linked behind it
/// first.
pub fn find_slot(drive: &Drive, head: u32) -> (r: Option<(FileTableSector, bool)>)
    ensures
        match r {
            Some((t, grow)) => {
                &&& slot_for(drive@, head, drive@.len()) == (if grow {
                    Slot::Grow(t.addr)
                } else {
                    Slot::Room(t.addr)
                })
                &&& t.mirrors(drive@)
                &&& !t.is_deleted
                &&& t.drive_index == drive.drive_index as usize
            },
            None => slot_for(drive@, head, drive@.len()) == Slot::Full,
        },
{
    let mut fuel: u32 = drive.sectors;
    let mut cur: u32 = head;
    while fuel > 0
        invariant
            fuel <= drive.sectors,
            slot_for(drive@, head, drive@.len()) == slot_for(drive@, cur, fuel as nat),
        decreases fuel,
    {
        let table = FileTableSector::load(cur, drive, None);
        if table.is_deleted {
            return None;
        }
        if table.files.len() < 8 {
            return Some((table, false));
        }
        let next = match table.continuation_addr {
            Some(next) => next,
            None => {
                if fuel >= 2 {
                    return Some((table, true));
                } else {
                    return None;
                }
            },
        };
        let follower = FileTableSector::load(next, drive, None);
        if follower.is_deleted {
            if fuel >= 2 {
                return Some((table, true));
            } else {
                return None;
            }
        }
        cur = next;
        fuel -= 1;
    }
    None
}

/// The address that an entry placed in the directory with head table
/// `head` points at: the highest free sector, or the one below it when the
/// highest is taken for a further table of the directory.
pub open spec fn landing(d0: Seq<[u8; 512]>, head: u32) -> int {
    if slot_for(d0, head, d0.len()) is Grow {
        nth_free(d0, 1)
    } else {
        nth_free(d0, 0)
    }
}

/// What the tables of a directory hold once `e` was placed in it: the
/// first table with a free slot is rewritten with `e` behind its entries;
/// or, where every table was full, the last one is rewritten with the
/// highest free sector as its continuation, and that sector becomes a live
/// table that holds `e` alone and ends the chain. No other sector changes.
pub open spec fn slotted(d0: Seq<[u8; 512]>, d1: Seq<[u8; 512]>, head: u32, e: Entry) -> bool {
    match slot_for(d0, head, d0.len()) {
        Slot::Room(t) => wrote(d0, d1, t, table_image(next_at(d0, t), entries_at(d0, t).push(e), true)),
        Slot::Grow(t) => {
            &&& d1.len() == d0.len()
            &&& 1 <= nth_free(d0, 0) < d0.len()
            &&& forall|b: int| 0 <= b < d0.len() && b != t && b != nth_free(d0, 0) ==> #[trigger] d1[b] == d0[b]
            &&& d1[t as int]@ == table_image(nth_free(d0, 0) as u32, entries_at(d0, t), true)
            &&& d1[nth_free(d0, 0)]@ == table_image(0, seq![e], true)
        },
        Slot::Full => false,
    }
}

/// What the tables of a directory hold on `d1` once `e` was placed in it
/// on `d0`: the first table with a free slot holds `e` behind its earlier
/// entries; or, where every table was full, the last one has the highest
/// free sector of `d0` as its continuation, and that sector is a live
/// table that holds `e` alone and ends the chain.
pub open spec fn tabled(d0: Seq<[u8; 512]>, d1: Seq<[u8; 512]>, head: u32, e: Entry) -> bool {
    match slot_for(d0, head, d0.len()) {
        Slot::Room(t) => t < d0.len() && d1[t as int]@ == table_image(
            next_at(d0, t),
            entries_at(d0, t).push(e),
            true,
        ),
        Slot::Grow(t) => {
            &&& t < d0.len()
            &&& 1 <= nth_free(d0, 0) < d0.len()
            &&& d1[t as int]@ == table_image(nth_free(d0, 0) as u32, entries_at(d0, t), true)
            &&& d1[nth_free(d0, 0)]@ == table_image(0, seq![e], true)
        },
        Slot::Full => false,
    }
}

/// Whether `a` is a table that placing an entry in the directory with head
/// table `head` rewrites or adds.
pub open spec fn retabled(d0: Seq<[u8; 512]>, head: u32, a: int) -> bool {
    match slot_for(d0, head, d0.len()) {
        Slot::Room(t) => a == t,
        Slot::Grow(t) => a == t || a == nth_free(d0, 0),
        Slot::Full => false,
    }
}

/// How many sectors the allocator hands out for the directory itself
/// before it hands out the one that a placed entry points at.
pub open spec fn lead(d0: Seq<[u8; 512]>, head: u32) -> nat {
    if slot_for(d0, head, d0.len()) is Grow {
        1
    } else {
        0
    }
}

/// Byte for byte what adding a file of contents `bytes` under the entry
/// `e` to the directory with head table `head` makes of a disk: the tables
/// are as `tabled` says; the file's data chain starts at the entry's
/// address, runs over the sectors the allocator hands out one after the
/// other, and holds the contents as `packed` says; and no other sector
/// differs.
pub open spec fn file_laid(d0: Seq<[u8; 512]>, d1: Seq<[u8; 512]>, head: u32, e: Entry, bytes: Seq<u8>) -> bool {
    &&& d1.len() == d0.len()
    &&& e.addr == landing(d0, head)
    &&& 1 <= e.addr < d0.len()
    &&& tabled(d0, d1, head, e)
    &&& packed(d1, file_sectors(d1, e.addr), bytes)
    &&& forall|j: int|
        0 <= j < file_sectors(d1, e.addr).len() ==> (#[trigger] file_sectors(d1, e.addr)[j]) == nth_free(
            d0,
            lead(d0, head) + j as nat,
        )
    &&& forall|a: int|
        0 <= a < d0.len() && #[trigger] d1[a] != d0[a] ==> retabled(d0, head, a) || file_sectors(d1, e.addr).contains(
            a as u32,
        )
}

/// Byte for byte what adding an empty directory under the entry `e` to the
/// directory with head table `head` makes of a disk: the tables are as
/// `tabled` says; the sector at the entry's address, which the allocator
/// hands out, is a live table without entries or continuation; and no
/// other sector differs.
pub open spec fn dir_laid(d0: Seq<[u8; 512]>, d1: Seq<[u8; 512]>, head: u32, e: Entry) -> bool {
    &&& d1.len() == d0.len()
    &&& e.addr == landing(d0, head)
    &&& 1 <= e.addr < d0.len()
    &&& tabled(d0, d1, head, e)
    &&& d1[e.addr as int]@ == table_image(0, Seq::<Entry>::empty(), true)
    &&& forall|a: int| 0 <= a < d0.len() && #[trigger] d1[a] != d0[a] ==> retabled(d0, head, a) || a == e.addr
}

/// Storing a file's contents after its entry was placed lays the file as
/// `file_laid` says.
pub proof fn lemma_file_laid(
    d0: Seq<[u8; 512]>,
    d1: Seq<[u8; 512]>,
    d2: Seq<[u8; 512]>,
    head: u32,
    e: Entry,
    bytes: Seq<u8>,
    extra: int,
)
    requires
        placed(d0, d1, head, e, extra),
        d2.len() == d1.len(),
        d0.len() <= u32::MAX,
        entry_ok(e),
        packed(d2, file_sectors(d2, e.addr), bytes),
        forall|j: int|
            0 <= j < file_sectors(d2, e.addr).len() ==> (#[trigger] file_sectors(d2, e.addr)[j]) == nth_free(d1, j as nat),
        forall|a: int|
            0 <= a < d1.len() && #[trigger] d2[a] != d1[a] ==> is_free(d1[a]) && file_sectors(d2, e.addr).contains(
                a as u32,
            ),
    ensures
        file_laid(d0, d2, head, e, bytes),
        listed(d0, d2, head, e),
        !e.is_dir ==> grew(d0, d2, head, e),
{
    let secs = file_sectors(d2, e.addr);
    lemma_slot_for(d0, head, d0.len());
    match slot_for(d0, head, d0.len()) {
        Slot::Room(t) => {
            lemma_live_not_free(d0, t);
            assert(d1[t as int]@[508] == 0x50);
            assert(d2[t as int] == d1[t as int]);
        },
        Slot::Grow(t) => {
            lemma_live_not_free(d0, t);
            let fresh = nth_free(d0, 0);
            assert(d1[t as int]@[508] == 0x50);
            assert(d1[fresh]@[508] == 0x50);
            assert(d2[t as int] == d1[t as int]);
            assert(d2[fresh] == d1[fresh]);
        },
        Slot::Full => {},
    }
    assert forall|j: int| 0 <= j < secs.len() implies (#[trigger] secs[j]) == nth_free(d0, lead(d0, head) + j as nat) by {
        lemma_nth_free_shift(d0, d1, lead(d0, head), j as nat);
    }
    assert forall|a: int| 0 <= a < d0.len() && #[trigger] d2[a] != d0[a] implies retabled(d0, head, a) || secs.contains(
        a as u32,
    ) by {
        if d2[a] == d1[a] {
            assert(d1[a] != d0[a]);
        }
    }
    assert forall|b: u32| #[trigger] live(d0, b) && !retabled(d0, head, b as int) implies d2[b as int] == d0[b as int] by {
        lemma_live_not_free(d0, b);
        assert(d1[b as int] == d0[b as int]);
    }
    lemma_listed(d0, d2, head, e);
    if !e.is_dir {
        assert forall|a: int| 0 <= a < d0.len() && #[trigger] d2[a] != d0[a] implies is_free(d0[a]) || slot_table(
            slot_for(d0, head, d0.len()),
        ) == Some(a as u32) by {
            if d2[a] != d1[a] {
                assert(is_free(d1[a]));
                if d1[a] != d0[a] {
                    assert(d1[a as int]@[508] == 0x50 || is_free(d0[a]));
                }
            }
        }
        lemma_grew(d0, d2, head, e);
    }
}

/// Writing an empty table where a placed entry points lays the directory
/// as `dir_laid` says.
pub proof fn lemma_dir_laid(d0: Seq<[u8; 512]>, d1: Seq<[u8; 512]>, d2: Seq<[u8; 512]>, head: u32, e: Entry, extra: int)
    requires
        placed(d0, d1, head, e, extra),
        d0.len() <= u32::MAX,
        entry_ok(e),
        wrote(d1, d2, e.addr, table_image(0, Seq::<Entry>::empty(), true)),
    ensures
        dir_laid(d0, d2, head, e),
        listed(d0, d2, head, e),
        e.is_dir ==> grew(d0, d2, head, e),
{
    lemma_slot_for(d0, head, d0.len());
    match slot_for(d0, head, d0.len()) {
        Slot::Room(t) => {
            lemma_live_not_free(d0, t);
            assert(d1[t as int]@[508] == 0x50);
            assert(d2[t as int] == d1[t as int]);
        },
        Slot::Grow(t) => {
            lemma_live_not_free(d0, t);
            let fresh = nth_free(d0, 0);
            assert(d1[t as int]@[508] == 0x50);
            assert(d1[fresh]@[508] == 0x50);
            assert(d2[t as int] == d1[t as int]);
            assert(d2[fresh] == d1[fresh]);
        },
        Slot::Full => {},
    }
    assert forall|a: int| 0 <= a < d0.len() && #[trigger] d2[a] != d0[a] implies retabled(d0, head, a) || a == e.addr by {
        if a != e.addr {
            assert(d2[a] == d1[a]);
        }
    }
    assert forall|b: u32| #[trigger] live(d0, b) && !retabled(d0, head, b as int) implies d2[b as int] == d0[b as int] by {
        lemma_live_not_free(d0, b);
        assert(d1[b as int] == d0[b as int]);
    }
    lemma_listed(d0, d2, head, e);
    if e.is_dir {
        assert forall|a: int| 0 <= a < d0.len() && #[trigger] d2[a] != d0[a] implies is_free(d0[a]) || slot_table(
            slot_for(d0, head, d0.len()),
        ) == Some(a as u32) by {
            if a != e.addr {
                assert(d2[a] == d1[a]);
            }
        }
        lemma_grew(d0, d2, head, e);
    }
}

/// What `place_entry` leaves behind when it placed `e` in the directory
/// with head table `head`.
pub open spec fn placed(d0: Seq<[u8; 512]>, d1: Seq<[u8; 512]>, head: u32, e: Entry, extra: int) -> bool {
    &&& d1.len() == d0.len()
    &&& 1 <= e.addr < d0.len()
    &&& is_free(d0[e.addr as int])
    &&& is_free(d1[e.addr as int])
    &&& free_count(d1, d1.len() as int) >= extra
    &&& free_count(d1, d1.len() as int) == free_count(d0, d0.len() as int) - (if slot_for(d0, head, d0.len()) is Grow {
        1int
    } else {
        0int
    })
    &&& extends(d0, d1, e)
    &&& locate(d0, head, d0.len(), e.name, e.is_dir) is None ==> found(d1, head, e.name, e.is_dir) == Some(e)
    &&& forall|a: int|
        0 <= a < d0.len() && #[trigger] d1[a] != d0[a] ==> is_free(d0[a]) || slot_table(slot_for(d0, head, d0.len()))
            == Some(a as u32)
    &&& e.addr == landing(d0, head)
    &&& slotted(d0, d1, head, e)
    &&& nth_free(d1, 0) == e.addr
    &&& forall|a: int| 1 <= a < e.addr ==> is_free(#[trigger] d1[a]) == is_free(d0[a])
}

/// A sector that carries the table signature is not free.
pub proof fn lemma_live_not_free(disk: Seq<[u8; 512]>, a: u32)
    requires
        live(disk, a),
    ensures
        a < disk.len(),
        !is_free(disk[a as int]),
{
    lemma_blank_sector();
    assert(disk[a as int]@[508] == 0x50);
}

/// Places an entry of the given name and kind in the directory with head
/// table `head`, pointing at a newly allocated sector, and returns that
/// sector's address. The sector itself is left as it was: free.
///
/// Nothing is written unless the directory can take the entry and `extra`
/// free sectors remain for the caller afterwards.
#[verifier::rlimit(40)]
pub fn place_entry(drive: &mut Drive, head: u32, name: &str, is_dir: bool, extra: usize) -> (r: Option<u32>)
    requires
        name_ok(name@),
        extra >= 1,
    ensures
        final(drive).same_identity(*old(drive)),
        r is None <==> !room(old(drive)@, head, extra as int),
        r is None ==> final(drive)@ == old(drive)@,
        r is Some ==> placed(
            old(drive)@,
            final(drive)@,
            head,
            Entry { name: name@, is_dir, addr: r->0 },
            extra as int,
        ),
{
    let ghost d0 = drive@;
    let ghost n = d0.len() as int;
    let (mut table, grow) = match find_slot(drive, head) {
        Some(found) => found,
        None => {
            return None;
        },
    };
    let ghost slot = table.addr;
    let ghost es = table.entries();
    let free = drive.free_sectors();
    if grow {
        if free == 0 || ((free - 1) as usize) < extra {
            return None;
        }
    } else {
        if (free as usize) < extra {
            return None;
        }
    }
    proof {
        lemma_slot_for(d0, head, n as nat);
        lemma_live_not_free(d0, slot);
        lemma_top_free(d0, n);
    }
    if grow {
        let fresh = match drive.find_available_sector() {
            Some(fresh) => fresh,
            None => {
                return None;
            },
        };
        table.set_continuation(fresh, drive);
        let ghost da = drive@;
        proof {
            lemma_table_roundtrip(fresh, es, true);
            lemma_free_count_update(d0, n, slot as int, da[slot as int]);
            assert(da[slot as int]@[508] == 0x50);
            assert(da =~= d0.update(slot as int, da[slot as int]));
            assert(is_free(da[fresh as int]));
        }
        table = FileTableSector::new(fresh, drive, None);
        let ghost db = drive@;
        proof {
            lemma_table_roundtrip(0, Seq::<Entry>::empty(), true);
            lemma_free_count_update(da, n, fresh as int, db[fresh as int]);
            assert(db[fresh as int]@[508] == 0x50);
            assert(db =~= da.update(fresh as int, db[fresh as int]));
            assert(table.entries() =~= Seq::<Entry>::empty());
            lemma_top_free(db, n);
        }
        let target = match drive.find_available_sector() {
            Some(target) => target,
            None => {
                return None;
            },
        };
        if is_dir {
            table.add_dir(name, target, drive);
        } else {
            table.add_file(name, target, drive);
        }
        let ghost d1 = drive@;
        let ghost e = Entry { name: name@, is_dir, addr: target };
        proof {
            lemma_table_roundtrip(0, seq![e], true);
            assert(Seq::<Entry>::empty().push(e) =~= seq![e]);
            lemma_free_count_update(db, n, fresh as int, d1[fresh as int]);
            assert(d1[fresh as int]@[508] == 0x50);
            assert(d1 =~= db.update(fresh as int, d1[fresh as int]));
            assert(d1[target as int] == d0[target as int]);
            assert forall|b: u32| #[trigger] live(d0, b) implies live(d1, b) && entries_at(d1, b) == entries_at(d0, b)
                && (b != slot ==> next_at(d1, b) == next_at(d0, b)) by {
                lemma_live_not_free(d0, b);
                if b != slot {
                    assert(d1[b as int] == d0[b as int]);
                }
            }
            assert(live(d1, fresh));
            assert(entries_at(d1, fresh) == seq![e]);
            assert(next_at(d1, slot) == fresh);
            if locate(d0, head, n as nat, name@, is_dir) is None {
                lemma_locate_grow(d0, d1, e, head, n as nat, slot, fresh);
                assert(entries_at(d1, fresh)[0] == e);
            }
            assert(extends(d0, d1, e));
            assert(fresh == nth_free(d0, 0));
            assert forall|a: int| 1 <= a < n && a != fresh implies is_free(#[trigger] db[a]) == is_free(d0[a]) by {
                if a != slot {
                    assert(db[a] == d0[a]);
                }
            }
            lemma_top_free_taken(d0, db, n);
            assert(target == nth_free(d0, 1));
            assert forall|a: int| 1 <= a < n implies is_free(#[trigger] d1[a]) == is_free(db[a]) by {
                if a != fresh {
                    assert(d1[a] == db[a]);
                }
            }
            lemma_top_free_same(db, d1, n);
            assert(d1[slot as int] == da[slot as int]);
            assert(slotted(d0, d1, head, e));
        }
        Some(target)
    } else {
        let target = match drive.find_available_sector() {
            Some(target) => target,
            None => {
                return None;
            },
        };
        if is_dir {
            table.add_dir(name, target, drive);
        } else {
            table.add_file(name, target, drive);
        }
        let ghost d1 = drive@;
        let ghost e = Entry { name: name@, is_dir, addr: target };
        proof {
            lemma_table_roundtrip(table.link(), es.push(e), true);
            lemma_free_count_update(d0, n, slot as int, d1[slot as int]);
            assert(d1[slot as int]@[508] == 0x50);
            assert(d1 =~= d0.update(slot as int, d1[slot as int]));
            assert(d1[target as int] == d0[target as int]);
            assert forall|b: u32| #[trigger] live(d0, b) && b != slot implies entries_at(d1, b) == entries_at(d0, b)
                && live(d1, b) && next_at(d1, b) == next_at(d0, b) by {
                lemma_live_not_free(d0, b);
                assert(d1[b as int] == d0[b as int]);
            }
            assert(entries_at(d1, slot) == es.push(e));
            assert(next_at(d1, slot) == next_at(d0, slot));
            assert(extends(d0, d1, e));
            if locate(d0, head, n as nat, name@, is_dir) is None {
                lemma_locate_room(d0, d1, e, head, n as nat, slot);
                assert(es.push(e)[es.len() as int] == e);
            }
            assert forall|a: int| 1 <= a < n implies is_free(#[trigger] d1[a]) == is_free(d0[a]) by {
                if a != slot {
                    assert(d1[a] == d0[a]);
                }
            }
            lemma_top_free_same(d0, d1, n);
            assert(slotted(d0, d1, head, e));
        }
        Some(target)
    }
}

/// A data sector that records a payload length other than zero is not
/// free.
pub proof fn lemma_data_not_free(sector: [u8; 512], link: u32, size: u16, data: Seq<u8>)
    requires
        sector@ == data_image(link, size, data),
        size != 0,
    ensures
        !is_free(sector),
{
    lemma_be16_nonzero(size);
    assert(data_image(link, size, data)[4] == be16_byte(size, 0));
    assert(data_image(link, size, data)[5] == be16_byte(size, 1));
    assert(sector@[4] == sector[4]);
    assert(sector@[5] == sector[5]);
}

/// The sectors `secs`, all free on `d0`, hold the leading runs of `all` on
/// `d` as a chain whose last sector links nowhere yet, and `d` differs from
/// `d0` in those sectors only.
pub open spec fn chain_so_far(d0: Seq<[u8; 512]>, d: Seq<[u8; 512]>, secs: Seq<u32>, all: Seq<u8>) -> bool {
    &&& d.len() == d0.len()
    &&& forall|j: int|
        0 <= j < secs.len() ==> {
            &&& 1 <= (#[trigger] secs[j]) < d.len()
            &&& is_free(d0[secs[j] as int])
            &&& !is_free(d[secs[j] as int])
            &&& payload(sector_at(d, secs[j])) == chunk(all, j)
            &&& next_at(d, secs[j]) == if j + 1 < secs.len() {
                secs[j + 1]
            } else {
                0
            }
            &&& (j + 1 < secs.len() ==> secs[j + 1] != 0)
        }
    &&& forall|a: int| 0 <= a < d.len() && !secs.contains(a as u32) ==> #[trigger] d[a] == d0[a]
}

/// Linking the last sector of a chain to a free sector and storing the
/// next run there extends the chain by that sector.
#[verifier::rlimit(40)]
pub proof fn lemma_chain_step(
    d0: Seq<[u8; 512]>,
    dp: Seq<[u8; 512]>,
    dq: Seq<[u8; 512]>,
    dr: Seq<[u8; 512]>,
    secs: Seq<u32>,
    all: Seq<u8>,
    ext: u32,
)
    requires
        chain_so_far(d0, dp, secs, all),
        secs.len() >= 1,
        1 <= ext < dp.len(),
        is_free(dp[ext as int]),
        dq.len() == dp.len(),
        forall|b: int| 0 <= b < dp.len() && b != secs.last() ==> #[trigger] dq[b] == dp[b],
        payload(sector_at(dq, secs.last())) == payload(sector_at(dp, secs.last())),
        next_at(dq, secs.last()) == ext,
        !is_free(dq[secs.last() as int]),
        dr.len() == dp.len(),
        forall|b: int| 0 <= b < dp.len() && b != ext ==> #[trigger] dr[b] == dq[b],
        payload(sector_at(dr, ext)) == chunk(all, secs.len() as int),
        next_at(dr, ext) == 0,
        !is_free(dr[ext as int]),
    ensures
        chain_so_far(d0, dr, secs.push(ext), all),
{
    let k = secs.len() as int;
    let last = secs.last();
    let grown = secs.push(ext);
    assert(!secs.contains(ext)) by {
        if secs.contains(ext) {
            let j = choose|j: int| 0 <= j < secs.len() && secs[j] == ext;
            assert(!is_free(dp[secs[j] as int]));
        }
    }
    assert(dp[ext as int] == d0[ext as int]);
    assert forall|j: int| 0 <= j < grown.len() implies {
        &&& 1 <= (#[trigger] grown[j]) < dr.len()
        &&& is_free(d0[grown[j] as int])
        &&& !is_free(dr[grown[j] as int])
        &&& payload(sector_at(dr, grown[j])) == chunk(all, j)
        &&& next_at(dr, grown[j]) == if j + 1 < grown.len() {
            grown[j + 1]
        } else {
            0
        }
        &&& (j + 1 < grown.len() ==> grown[j + 1] != 0)
    } by {
        if j < k {
            assert(grown[j] == secs[j]);
            assert(secs.contains(secs[j]));
            assert(secs[j] != ext);
            assert(dr[secs[j] as int] == dq[secs[j] as int]);
            if j < k - 1 {
                assert(grown[j + 1] == secs[j + 1]);
                assert(secs[j] != last) by {
                    if secs[j] == last {
                        assert(next_at(dp, secs[j]) == secs[j + 1]);
                        assert(next_at(dp, secs[k - 1]) == 0);
                    }
                }
                assert(dq[secs[j] as int] == dp[secs[j] as int]);
            } else {
                assert(grown[j + 1] == ext);
            }
        } else {
            assert(grown[j] == ext);
        }
    }
    assert forall|a: int| 0 <= a < dr.len() && !grown.contains(a as u32) implies #[trigger] dr[a] == d0[a] by {
        assert(grown[k] == ext);
        assert(grown[k - 1] == last);
        if secs.contains(a as u32) {
            let j = choose|j: int| 0 <= j < secs.len() && secs[j] == a as u32;
            assert(grown[j] == a as u32);
        }
    }
}

/// The sectors `secs` are the ones the allocator hands out on `d0`, in
/// that order, each holds on `d` its run of `all` byte for byte, and the
/// next sector the allocator hands out on `d` is the one that follows them
/// on `d0`.
pub open spec fn packed_so_far(d0: Seq<[u8; 512]>, d: Seq<[u8; 512]>, secs: Seq<u32>, all: Seq<u8>) -> bool {
    &&& forall|j: int|
        0 <= j < secs.len() ==> {
            &&& (#[trigger] secs[j]) == nth_free(d0, j as nat)
            &&& d[secs[j] as int]@ == data_image(
                if j + 1 < secs.len() {
                    secs[j + 1]
                } else {
                    0
                },
                chunk(all, j).len() as u16,
                filled(chunk(all, j)),
            )
        }
    &&& top_free(d, d.len() as int) == nth_free(d0, secs.len())
}

/// One round of `store_bytes` keeps the chain byte for byte what it is to
/// be, on the sectors the allocator hands out.
#[verifier::rlimit(40)]
pub proof fn lemma_packed_step(
    d0: Seq<[u8; 512]>,
    dp: Seq<[u8; 512]>,
    dq: Seq<[u8; 512]>,
    dr: Seq<[u8; 512]>,
    secs: Seq<u32>,
    all: Seq<u8>,
    ext: u32,
)
    requires
        chain_so_far(d0, dp, secs, all),
        packed_so_far(d0, dp, secs, all),
        secs.len() >= 1,
        ext == top_free(dp, dp.len() as int),
        1 <= ext < dp.len(),
        is_free(dp[ext as int]),
        chunk(all, secs.len() - 1).len() == 506,
        0 < chunk(all, secs.len() as int).len() <= 506,
        wrote(dp, dq, secs.last(), data_image(ext, 506, filled(chunk(all, secs.len() - 1)))),
        wrote(
            dq,
            dr,
            ext,
            data_image(0, chunk(all, secs.len() as int).len() as u16, filled(chunk(all, secs.len() as int))),
        ),
    ensures
        packed_so_far(d0, dr, secs.push(ext), all),
{
    let k = secs.len() as int;
    let n = dp.len() as int;
    let last = secs.last();
    let grown = secs.push(ext);
    assert(1 <= secs[k - 1] < n);
    assert(!is_free(dp[secs[k - 1] as int]));
    assert(!secs.contains(ext)) by {
        if secs.contains(ext) {
            let j = choose|j: int| 0 <= j < secs.len() && secs[j] == ext;
            assert(!is_free(dp[secs[j] as int]));
        }
    }
    lemma_data_not_free(dq[last as int], ext, 506, filled(chunk(all, k - 1)));
    lemma_data_not_free(dr[ext as int], 0, chunk(all, k).len() as u16, filled(chunk(all, k)));
    assert forall|j: int| 0 <= j < grown.len() implies {
        &&& (#[trigger] grown[j]) == nth_free(d0, j as nat)
        &&& dr[grown[j] as int]@ == data_image(
            if j + 1 < grown.len() {
                grown[j + 1]
            } else {
                0
            },
            chunk(all, j).len() as u16,
            filled(chunk(all, j)),
        )
    } by {
        if j < k {
            assert(grown[j] == secs[j]);
            assert(secs.contains(secs[j]));
            assert(1 <= secs[j] < n);
            assert(dr[secs[j] as int] == dq[secs[j] as int]);
            if j < k - 1 {
                assert(grown[j + 1] == secs[j + 1]);
                assert(secs[j] != last) by {
                    if secs[j] == last {
                        assert(next_at(dp, secs[j]) == secs[j + 1]);
                        assert(next_at(dp, secs[k - 1]) == 0);
                    }
                }
                assert(dq[secs[j] as int] == dp[secs[j] as int]);
            } else {
                assert(grown[j + 1] == ext);
            }
        } else {
            assert(grown[j] == ext);
        }
    }
    assert forall|a: int| 1 <= a < n implies is_free(#[trigger] dq[a]) == is_free(dp[a]) by {
        if a != last {
            assert(dq[a] == dp[a]);
        }
    }
    lemma_top_free_same(dp, dq, n);
    assert forall|a: int| 1 <= a < n && a != ext implies is_free(#[trigger] dr[a]) == is_free(dq[a]) by {
        assert(dr[a] == dq[a]);
    }
    lemma_top_free_taken(dq, dr, n);
    assert forall|a: int| 1 <= a < ext implies is_free(#[trigger] dq[a]) == is_free(d0[a]) by {
        if secs.contains(a as u32) {
            let j = choose|j: int| 0 <= j < secs.len() && secs[j] == a as u32;
            lemma_nth_free_order(d0, j as nat, k as nat);
        } else {
            assert(dp[a] == d0[a]);
            assert(dq[a] == dp[a]);
        }
    }
    lemma_top_free_same(d0, dq, ext as int);
}

/// One round of `store_bytes`: the last sector of the chain was rewritten
/// with a link to the free sector `ext`, and the next run was stored there.
#[verifier::rlimit(40)]
pub proof fn lemma_store_step(
    d0: Seq<[u8; 512]>,
    dp: Seq<[u8; 512]>,
    dq: Seq<[u8; 512]>,
    dr: Seq<[u8; 512]>,
    secs: Seq<u32>,
    all: Seq<u8>,
    ext: u32,
)
    requires
        chain_so_far(d0, dp, secs, all),
        secs.len() >= 1,
        1 <= ext < dp.len(),
        is_free(dp[ext as int]),
        chunk(all, secs.len() - 1).len() == 506,
        0 < chunk(all, secs.len() as int).len() <= 506,
        wrote(dp, dq, secs.last(), data_image(ext, 506, filled(chunk(all, secs.len() - 1)))),
        wrote(
            dq,
            dr,
            ext,
            data_image(0, chunk(all, secs.len() as int).len() as u16, filled(chunk(all, secs.len() as int))),
        ),
    ensures
        chain_so_far(d0, dr, secs.push(ext), all),
        free_count(dr, dr.len() as int) == free_count(dp, dp.len() as int) - 1,
        sector_at(dr, ext).subrange(6, 512) == filled(chunk(all, secs.len() as int)),
        size_of(sector_at(dr, ext)) == chunk(all, secs.len() as int).len(),
        link_of(sector_at(dr, ext)) == 0,
{
    let k = secs.len() as int;
    let n = dp.len() as int;
    let last = secs.last();
    let size = chunk(all, k).len() as u16;
    assert(1 <= secs[k - 1] < n);
    assert(!is_free(dp[secs[k - 1] as int]));
    lemma_data_roundtrip(ext, 506, filled(chunk(all, k - 1)));
    assert(filled(chunk(all, k - 1)).take(506) =~= chunk(all, k - 1));
    assert(dq =~= dp.update(last as int, dq[last as int]));
    lemma_free_count_update(dp, n, last as int, dq[last as int]);
    lemma_data_not_free(dq[last as int], ext, 506, filled(chunk(all, k - 1)));
    lemma_data_roundtrip(0, size, filled(chunk(all, k)));
    assert(filled(chunk(all, k)).take(size as int) =~= chunk(all, k));
    assert(dr =~= dq.update(ext as int, dr[ext as int]));
    lemma_free_count_update(dq, n, ext as int, dr[ext as int]);
    lemma_data_not_free(dr[ext as int], 0, size, filled(chunk(all, k)));
    assert(payload(sector_at(dq, last)) == payload(sector_at(dp, last)));
    lemma_chain_step(d0, dp, dq, dr, secs, all, ext);
    assert(sector_at(dr, ext).subrange(6, 512) =~= filled(chunk(all, k)));
}

/// Stores `bytes` as a data chain that starts at `first`, the highest free
/// sector, taking each further sector from the top of the free ones.
#[verifier::rlimit(40)]
pub fn store_bytes(drive: &mut Drive, first: u32, bytes: &Vec<u8>)
    requires
        1 <= first < old(drive).sectors,
        is_free(old(drive)@[first as int]),
        first == nth_free(old(drive)@, 0),
        free_count(old(drive)@, old(drive).sectors as int) >= blocks_for(bytes@.len() as int),
    ensures
        final(drive).same_identity(*old(drive)),
        packed(final(drive)@, file_sectors(final(drive)@, first), bytes@),
        forall|j: int|
            0 <= j < file_sectors(final(drive)@, first).len() ==> (#[trigger] file_sectors(final(drive)@, first)[j])
                == nth_free(old(drive)@, j as nat),
        file_bytes(final(drive)@, first) == bytes@,
        file_sectors(final(drive)@, first).len() == blocks_for(bytes@.len() as int),
        file_sectors(final(drive)@, first)[0] == first,
        stores(final(drive)@, file_sectors(final(drive)@, first), bytes@),
        free_count(final(drive)@, final(drive).sectors as int) == free_count(old(drive)@, old(drive).sectors as int)
            - (if bytes@.len() == 0 {
            0
        } else {
            blocks_for(bytes@.len() as int)
        }),
        forall|a: int|
            0 <= a < old(drive)@.len() && #[trigger] final(drive)@[a] != old(drive)@[a] ==> is_free(old(drive)@[a])
                && file_sectors(final(drive)@, first).contains(a as u32),
        forall|j: int|
            0 <= j < file_sectors(final(drive)@, first).len() ==> is_free(
                old(drive)@[(#[trigger] file_sectors(final(drive)@, first)[j]) as int],
            ),
        bytes@.len() > 0 ==> forall|j: int|
            0 <= j < file_sectors(final(drive)@, first).len() ==> !is_free(
                final(drive)@[(#[trigger] file_sectors(final(drive)@, first)[j]) as int],
            ),
{
    let ghost d0 = drive@;
    let ghost n = d0.len() as int;
    let ghost all = bytes@;
    let total = bytes.len();
    let mut written_bytes: usize = if total < 506 {
        total
    } else {
        506
    };
    let bytes_to_write = slice_to_vec(slice_subrange(bytes.as_slice(), 0, written_bytes));
    let mut current_sector = DataSector::new(first, drive, bytes_to_write);
    let ghost mut secs: Seq<u32> = seq![first];
    proof {
        lemma_data_roundtrip(0, written_bytes as u16, filled(chunk(all, 0)));
        assert(bytes_to_write@ =~= chunk(all, 0));
        assert(filled(chunk(all, 0)).take(written_bytes as int) =~= chunk(all, 0));
        assert(drive@ =~= d0.update(first as int, drive@[first as int]));
        lemma_free_count_update(d0, n, first as int, drive@[first as int]);
        lemma_free_count_bound(d0, n);
        assert(current_sector.data@ =~= filled(chunk(all, 0)));
        assert(secs[0] == first);
    }
    if total == 0 {
        proof {
            let d1 = drive@;
            assert(stores(d1, secs, all));
            lemma_stores(d1, secs, all, 0, n as nat);
            assert(secs.skip(0) =~= secs);
            assert(all.skip(0) =~= all);
            assert(secs.contains(first));
            lemma_zero_bytes();
            assert forall|i: int| 0 <= i < 512 implies d1[first as int][i] == 0 by {
                assert(d1[first as int]@[i] == data_image(0, 0, filled(chunk(all, 0)))[i]);
            }
            assert(packed(d1, secs, all));
        }
        return ;
    }
    proof {
        lemma_data_not_free(drive@[first as int], 0, written_bytes as u16, filled(chunk(all, 0)));
        assert forall|a: int| 0 <= a < n && !secs.contains(a as u32) implies #[trigger] drive@[a] == d0[a] by {
            assert(secs.contains(first));
        }
        assert(chain_so_far(d0, drive@, secs, all));
        assert forall|a: int| 1 <= a < n && a != first implies is_free(#[trigger] drive@[a]) == is_free(d0[a]) by {
            assert(drive@[a] == d0[a]);
        }
        lemma_top_free(d0, n);
        lemma_top_free_taken(d0, drive@, n);
        assert(packed_so_far(d0, drive@, secs, all));
    }
    while written_bytes < total
        invariant
            drive.same_identity(*old(drive)),
            d0 == old(drive)@,
            n == d0.len(),
            all == bytes@,
            total == all.len(),
            total > 0,
            secs.len() >= 1,
            secs[0] == first,
            drive@.len() == n,
            written_bytes as int == (if 506 * secs.len() <= total { 506 * (secs.len() as int) } else { total as int }),
            secs.len() <= blocks_for(total as int),
            written_bytes < total ==> secs.len() < blocks_for(total as int),
            written_bytes == total ==> secs.len() == blocks_for(total as int),
            free_count(drive@, n) + secs.len() == free_count(d0, n),
            free_count(d0, n) >= blocks_for(total as int),
            chain_so_far(d0, drive@, secs, all),
            packed_so_far(d0, drive@, secs, all),
            current_sector.addr == secs.last(),
            current_sector.continuation_addr.is_none(),
            current_sector.size as int == chunk(all, secs.len() - 1).len(),
            current_sector.size <= 506,
            current_sector.data@ == filled(chunk(all, secs.len() - 1)),
        decreases total - written_bytes,
    {
        let ghost k = secs.len() as int;
        let ghost dp = drive@;
        let last = current_sector.addr;
        let end: usize = if total - written_bytes < 506 {
            total
        } else {
            written_bytes + 506
        };
        let bytes_to_write = slice_to_vec(slice_subrange(bytes.as_slice(), written_bytes, end));
        proof {
            lemma_top_free(dp, n);
            assert(bytes_to_write@ =~= chunk(all, k));
            assert(1 <= secs[k - 1] < n);
            assert(chunk(all, k - 1).len() == 506);
            assert(current_sector.size == 506);
        }
        let extension_file_sector = match drive.find_available_sector() {
            Some(sector) => sector,
            None => {
                return ;
            },
        };
        current_sector.continuation_addr = Some(extension_file_sector);
        current_sector.update_physical_drive(drive);
        let ghost dq = drive@;
        written_bytes += bytes_to_write.len();
        current_sector = DataSector::new(extension_file_sector, drive, bytes_to_write);
        proof {
            lemma_packed_step(d0, dp, dq, drive@, secs, all, extension_file_sector);
            lemma_store_step(d0, dp, dq, drive@, secs, all, extension_file_sector);
            assert(current_sector.data@ =~= filled(chunk(all, k)));
            secs = secs.push(extension_file_sector);
        }
    }
    proof {
        let d1 = drive@;
        assert(stores(d1, secs, all));
        assert(packed(d1, secs, all));
        lemma_stores(d1, secs, all, 0, n as nat);
        assert(secs.skip(0) =~= secs);
        assert(all.skip(0) =~= all);
        assert forall|a: int| 0 <= a < n && #[trigger] d1[a] != d0[a] implies is_free(d0[a]) && secs.contains(
            a as u32,
        ) by {
            let j = choose|j: int| 0 <= j < secs.len() && secs[j] == a as u32;
            assert(is_free(d0[secs[j] as int]));
        }
    }
}

} // verus!

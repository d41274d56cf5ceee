//! How lookups fare when sectors are rewritten: which writes leave what a
//! path resolves to alone, and where a newly placed entry is then found.

use crate::ata::free_count;
use crate::fs::data::filled;
use crate::fs::layout::{data_image, payload, sector_at, Entry};
use crate::fs::table::{first_hit, hits, lemma_first_hit, lemma_first_hit_push};
use crate::fs::tree::{chain_bytes, data_chain, entries_at, found, live, locate, next_at, resolve_dir};
use vstd::prelude::*;

verus! {

/// Where a directory can take one more entry.
pub enum Slot {
    /// The first table of the chain that has a free slot.
    Room(u32),
    /// Every table is full; a new table can be linked behind this last one.
    Grow(u32),
    /// No entry can be placed: the head table is not live, or the chain is
    /// already as long as a walk will follow.
    Full,
}

/// Where the directory with head table `a` takes its next entry.
pub open spec fn slot_for(disk: Seq<[u8; 512]>, a: u32, fuel: nat) -> Slot
    decreases fuel,
{
    if fuel == 0 || !live(disk, a) {
        Slot::Full
    } else if entries_at(disk, a).len() < 8 {
        Slot::Room(a)
    } else if next_at(disk, a) == 0 || !live(disk, next_at(disk, a)) {
        if fuel >= 2 {
            Slot::Grow(a)
        } else {
            Slot::Full
        }
    } else {
        slot_for(disk, next_at(disk, a), (fuel - 1) as nat)
    }
}

/// Number of data sectors a file of `n` bytes is stored in: one per 506
/// bytes, and one for an empty file.
pub open spec fn blocks_for(n: int) -> int {
    if n <= 0 {
        1
    } else {
        (n - 1) / 506 + 1
    }
}

/// Whether the directory with head table `head` can take one more entry
/// while `extra` further sectors are allocated: a table with a free slot
/// or room to link a new one, and enough free sectors for all of it.
pub open spec fn room(disk: Seq<[u8; 512]>, head: u32, extra: int) -> bool {
    match slot_for(disk, head, disk.len()) {
        Slot::Room(_) => free_count(disk, disk.len() as int) >= extra,
        Slot::Grow(_) => free_count(disk, disk.len() as int) >= extra + 1,
        Slot::Full => false,
    }
}

/// The address of the table that `slot_for` names, if it names one.
pub open spec fn slot_table(slot: Slot) -> Option<u32> {
    match slot {
        Slot::Room(t) => Some(t),
        Slot::Grow(t) => Some(t),
        Slot::Full => None,
    }
}

/// The `j`-th run of 506 bytes of `bytes`; the last run may be shorter.
pub open spec fn chunk(bytes: Seq<u8>, j: int) -> Seq<u8> {
    bytes.subrange(506 * j, if 506 * (j + 1) <= bytes.len() { 506 * (j + 1) } else { bytes.len() as int })
}

/// The sectors `secs` hold `bytes` as a data chain: each holds its run of
/// 506 bytes and links to the next, and the last links nowhere.
pub open spec fn stores(disk: Seq<[u8; 512]>, secs: Seq<u32>, bytes: Seq<u8>) -> bool {
    &&& secs.len() == blocks_for(bytes.len() as int)
    &&& forall|j: int|
        0 <= j < secs.len() ==> {
            &&& (#[trigger] secs[j]) < disk.len()
            &&& payload(sector_at(disk, secs[j])) == chunk(bytes, j)
            &&& next_at(disk, secs[j]) == if j + 1 < secs.len() {
                secs[j + 1]
            } else {
                0
            }
            &&& (j + 1 < secs.len() ==> secs[j + 1] != 0)
        }
}

/// The sectors `secs` hold `bytes` byte for byte as a data chain: sector
/// `j` holds the address of sector `j + 1` (0 in the last), the length of
/// its run of `bytes`, that run, and zeros up to its end.
pub open spec fn packed(disk: Seq<[u8; 512]>, secs: Seq<u32>, bytes: Seq<u8>) -> bool {
    &&& secs.len() == blocks_for(bytes.len() as int)
    &&& forall|j: int|
        0 <= j < secs.len() ==> (#[trigger] secs[j]) < disk.len() && disk[secs[j] as int]@ == data_image(
            if j + 1 < secs.len() {
                secs[j + 1]
            } else {
                0
            },
            chunk(bytes, j).len() as u16,
            filled(chunk(bytes, j)),
        )
}

/// A chain that stores `bytes` reads back as `bytes`, sector by sector in
/// the order of `secs`.
pub proof fn lemma_stores(disk: Seq<[u8; 512]>, secs: Seq<u32>, bytes: Seq<u8>, j: int, fuel: nat)
    requires
        stores(disk, secs, bytes),
        0 <= j < secs.len(),
        fuel >= secs.len() - j,
    ensures
        data_chain(disk, secs[j], fuel) == secs.skip(j),
        chain_bytes(disk, secs[j], fuel) == bytes.skip(506 * j),
        506 * j <= bytes.len(),
    decreases secs.len() - j,
{
    let a = secs[j];
    assert(a < disk.len());
    if j + 1 < secs.len() {
        lemma_stores(disk, secs, bytes, j + 1, (fuel - 1) as nat);
        assert(secs[j + 1] != 0);
        assert(seq![a] + secs.skip(j + 1) =~= secs.skip(j));
        assert(chunk(bytes, j) + bytes.skip(506 * (j + 1)) =~= bytes.skip(506 * j));
    } else {
        assert(seq![a] =~= secs.skip(j));
        assert(chunk(bytes, j) =~= bytes.skip(506 * j));
    }
}

/// The table a directory takes its next entry in is live; one with room has
/// fewer than eight entries, and one to grow behind is full and ends the
/// chain.
pub proof fn lemma_slot_for(disk: Seq<[u8; 512]>, a: u32, fuel: nat)
    ensures
        match slot_for(disk, a, fuel) {
            Slot::Room(t) => live(disk, t) && entries_at(disk, t).len() < 8,
            Slot::Grow(t) => live(disk, t) && entries_at(disk, t).len() >= 8 && (next_at(disk, t) == 0 || !live(
                disk,
                next_at(disk, t),
            )),
            Slot::Full => true,
        },
    decreases fuel,
{
    if fuel != 0 && live(disk, a) && entries_at(disk, a).len() >= 8 && next_at(disk, a) != 0 && live(
        disk,
        next_at(disk, a),
    ) {
        lemma_slot_for(disk, next_at(disk, a), (fuel - 1) as nat);
    }
}

/// `d1` keeps every live table of `d0` live, with the same entries or with
/// `e` appended, and with the same continuation unless that led nowhere.
pub open spec fn extends(d0: Seq<[u8; 512]>, d1: Seq<[u8; 512]>, e: Entry) -> bool {
    &&& d1.len() == d0.len()
    &&& forall|a: u32| #[trigger]
        live(d0, a) ==> {
            &&& live(d1, a)
            &&& (entries_at(d1, a) == entries_at(d0, a) || entries_at(d1, a) == entries_at(d0, a).push(e))
            &&& (next_at(d1, a) == next_at(d0, a) || next_at(d0, a) == 0 || !live(d0, next_at(d0, a)))
        }
}

/// An entry that a directory lists is still the first of its name and kind
/// after the disk was extended by an entry that does not hit.
pub proof fn lemma_locate_extends(
    d0: Seq<[u8; 512]>,
    d1: Seq<[u8; 512]>,
    e: Entry,
    a: u32,
    fuel: nat,
    name: Seq<char>,
    is_dir: bool,
)
    requires
        extends(d0, d1, e),
        !hits(e, name, is_dir),
        locate(d0, a, fuel, name, is_dir) is Some,
    ensures
        locate(d1, a, fuel, name, is_dir) == locate(d0, a, fuel, name, is_dir),
        ({
            let (t, i) = locate(d0, a, fuel, name, is_dir)->0;
            &&& live(d0, t)
            &&& 0 <= i < entries_at(d0, t).len()
            &&& i < entries_at(d1, t).len()
            &&& entries_at(d1, t)[i] == entries_at(d0, t)[i]
            &&& hits(entries_at(d0, t)[i], name, is_dir)
        }),
    decreases fuel,
{
    let es0 = entries_at(d0, a);
    let es1 = entries_at(d1, a);
    assert(live(d0, a));
    lemma_first_hit(es0, name, is_dir);
    lemma_first_hit_push(es0, e, name, is_dir);
    if first_hit(es0, name, is_dir) >= 0 {
        let i = first_hit(es0, name, is_dir);
        if es1 != es0 {
            assert(es0.push(e)[i] == es0[i]);
        }
    } else {
        let n = next_at(d0, a);
        assert(locate(d0, n, (fuel - 1) as nat, name, is_dir) is Some);
        assert(live(d0, n));
        lemma_locate_extends(d0, d1, e, n, (fuel - 1) as nat, name, is_dir);
    }
}

/// A directory path that resolved still resolves to the same head table
/// after the disk was extended by an entry that no component of the path
/// could mistake for a directory of its name.
pub proof fn lemma_resolve_extends(d0: Seq<[u8; 512]>, d1: Seq<[u8; 512]>, e: Entry, root: u32, path: Seq<Seq<char>>)
    requires
        extends(d0, d1, e),
        resolve_dir(d0, root, path) is Some,
        forall|i: int| 0 <= i < path.len() ==> !hits(e, #[trigger] path[i], true),
    ensures
        resolve_dir(d1, root, path) == resolve_dir(d0, root, path),
    decreases path.len(),
{
    if path.len() == 0 {
        assert(live(d0, root));
    } else {
        let parent = path.drop_last();
        assert forall|i: int| 0 <= i < parent.len() implies !hits(e, #[trigger] parent[i], true) by {
            assert(parent[i] == path[i]);
        }
        lemma_resolve_extends(d0, d1, e, root, parent);
        let h = resolve_dir(d0, root, parent)->0;
        assert(!hits(e, path[path.len() - 1], true));
        lemma_locate_extends(d0, d1, e, h, d0.len(), path.last(), true);
        let (t, i) = locate(d0, h, d0.len(), path.last(), true)->0;
        assert(live(d0, entries_at(d0, t)[i].addr));
    }
}

/// After `e` was appended to the table that had room, a directory that did
/// not list `e`'s name and kind before lists `e` first.
pub proof fn lemma_locate_room(
    d0: Seq<[u8; 512]>,
    d1: Seq<[u8; 512]>,
    e: Entry,
    a: u32,
    fuel: nat,
    t: u32,
)
    requires
        slot_for(d0, a, fuel) == Slot::Room(t),
        locate(d0, a, fuel, e.name, e.is_dir) is None,
        extends(d0, d1, e),
        forall|b: u32| #[trigger] live(d0, b) && b != t ==> entries_at(d1, b) == entries_at(d0, b),
        entries_at(d1, t) == entries_at(d0, t).push(e),
    ensures
        locate(d1, a, fuel, e.name, e.is_dir) == Some((t, entries_at(d0, t).len() as int)),
    decreases fuel,
{
    let es0 = entries_at(d0, a);
    assert(live(d0, a));
    lemma_first_hit(es0, e.name, e.is_dir);
    assert(hits(e, e.name, e.is_dir));
    assert(live(d1, a));
    if es0.len() < 8 {
        lemma_first_hit_push(es0, e, e.name, e.is_dir);
    } else {
        let n = next_at(d0, a);
        assert(live(d0, n));
        lemma_slot_for(d0, n, (fuel - 1) as nat);
        assert(a != t);
        assert(entries_at(d1, a) == es0);
        assert(next_at(d1, a) == n);
        lemma_locate_room(d0, d1, e, n, (fuel - 1) as nat, t);
    }
}

/// After a fresh table holding just `e` was linked behind the last table of
/// a full chain, a directory that did not list `e`'s name and kind before
/// lists `e` first, in the fresh table.
pub proof fn lemma_locate_grow(
    d0: Seq<[u8; 512]>,
    d1: Seq<[u8; 512]>,
    e: Entry,
    a: u32,
    fuel: nat,
    tail: u32,
    fresh: u32,
)
    requires
        slot_for(d0, a, fuel) == Slot::Grow(tail),
        locate(d0, a, fuel, e.name, e.is_dir) is None,
        d1.len() == d0.len(),
        forall|b: u32| #[trigger]
            live(d0, b) ==> live(d1, b) && entries_at(d1, b) == entries_at(d0, b) && (b != tail ==> next_at(d1, b)
                == next_at(d0, b)),
        next_at(d1, tail) == fresh,
        fresh != 0,
        live(d1, fresh),
        entries_at(d1, fresh) == seq![e],
    ensures
        locate(d1, a, fuel, e.name, e.is_dir) == Some((fresh, 0int)),
    decreases fuel,
{
    let es0 = entries_at(d0, a);
    assert(live(d0, a));
    lemma_first_hit(es0, e.name, e.is_dir);
    let n = next_at(d0, a);
    assert(hits(e, e.name, e.is_dir));
    assert(live(d1, a));
    assert(entries_at(d1, a) == es0);
    if n == 0 || !live(d0, n) {
        assert(a == tail);
        lemma_first_hit_push(Seq::<Entry>::empty(), e, e.name, e.is_dir);
        assert(Seq::<Entry>::empty().push(e) =~= seq![e]);
        lemma_first_hit(Seq::<Entry>::empty(), e.name, e.is_dir);
        assert(first_hit(seq![e], e.name, e.is_dir) == 0);
        assert(locate(d1, fresh, (fuel - 1) as nat, e.name, e.is_dir) == Some((fresh, 0int)));
    } else {
        lemma_slot_for(d0, n, (fuel - 1) as nat);
        assert(a != tail);
        assert(next_at(d1, a) == n);
        lemma_locate_grow(d0, d1, e, n, (fuel - 1) as nat, tail, fresh);
    }
}

/// A data chain whose sectors all stayed as they were reads as it did.
pub proof fn lemma_chain_unchanged(d0: Seq<[u8; 512]>, d1: Seq<[u8; 512]>, a: u32, fuel: nat)
    requires
        d1.len() == d0.len(),
        forall|j: int|
            0 <= j < data_chain(d0, a, fuel).len() ==> d1[(#[trigger] data_chain(d0, a, fuel)[j]) as int] == d0[data_chain(
                d0,
                a,
                fuel,
            )[j] as int],
    ensures
        data_chain(d1, a, fuel) == data_chain(d0, a, fuel),
        chain_bytes(d1, a, fuel) == chain_bytes(d0, a, fuel),
    decreases fuel,
{
    if fuel > 0 && a < d0.len() {
        let chain = data_chain(d0, a, fuel);
        assert(chain[0] == a);
        assert(d1[a as int] == d0[a as int]);
        let n = next_at(d0, a);
        if n != 0 {
            let rest = data_chain(d0, n, (fuel - 1) as nat);
            assert forall|j: int| 0 <= j < rest.len() implies d1[(#[trigger] rest[j]) as int] == d0[rest[j] as int] by {
                assert(chain[j + 1] == rest[j]);
            }
            lemma_chain_unchanged(d0, d1, n, (fuel - 1) as nat);
        }
    }
}

} // verus!

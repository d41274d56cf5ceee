//! Disks on which no table refers to a free sector, and why nothing but
//! the new entry appears on them when an entry is placed.

use crate::ata::{is_free, nth_free};
use crate::fs::chain::lemma_tabled_entries;
use crate::fs::erase::lemma_locate_hit;
use crate::fs::frame::{lemma_slot_for, slot_for, slot_table, Slot};
use crate::fs::layout::{entries_ok, entry_ok, lemma_blank_sector, lemma_sector_entries_ok, lemma_table_roundtrip, sector_at, table_image, Entry};
use crate::fs::place::{lemma_live_not_free, tabled};
use crate::fs::table::{first_hit, hits, lemma_first_hit, lemma_first_hit_push};
use crate::fs::tree::{entries_at, live, locate, lookup, next_at, resolve_dir, table_chain};
use vstd::prelude::*;

verus! {

/// No live table of the disk refers to a free sector: neither by its
/// continuation nor by the address of a directory it lists.
pub open spec fn sealed(disk: Seq<[u8; 512]>) -> bool {
    forall|b: u32| #[trigger]
        live(disk, b) ==> {
            &&& next_at(disk, b) == 0 || !(next_at(disk, b) < disk.len() && is_free(disk[next_at(disk, b) as int]))
            &&& forall|i: int|
                0 <= i < entries_at(disk, b).len() && (#[trigger] entries_at(disk, b)[i]).is_dir ==> !(entries_at(
                    disk,
                    b,
                )[i].addr < disk.len() && is_free(disk[entries_at(disk, b)[i].addr as int]))
        }
}

/// What placing the entry `e` in the directory with head table `head`
/// makes of the tables of a disk: every live table stays live; the one
/// with room lists `e` behind its entries, or the last one is continued by
/// a fresh table that lists `e` alone; every other table lists and
/// continues as before; whatever else became a live table was free; and a
/// directory that `e` stands for is empty.
pub open spec fn grew(d0: Seq<[u8; 512]>, d1: Seq<[u8; 512]>, head: u32, e: Entry) -> bool {
    &&& d1.len() == d0.len()
    &&& forall|b: u32| #[trigger]
        live(d0, b) ==> {
            &&& live(d1, b)
            &&& entries_at(d1, b) == if slot_for(d0, head, d0.len()) == Slot::Room(b) {
                entries_at(d0, b).push(e)
            } else {
                entries_at(d0, b)
            }
            &&& next_at(d1, b) == if slot_for(d0, head, d0.len()) == Slot::Grow(b) {
                nth_free(d0, 0) as u32
            } else {
                next_at(d0, b)
            }
        }
    &&& forall|b: u32| #[trigger] live(d1, b) && !live(d0, b) ==> b < d0.len() && is_free(d0[b as int])
    &&& slot_for(d0, head, d0.len()) is Grow ==> {
        &&& nth_free(d0, 0) != 0
        &&& live(d1, nth_free(d0, 0) as u32)
        &&& entries_at(d1, nth_free(d0, 0) as u32) == seq![e]
        &&& next_at(d1, nth_free(d0, 0) as u32) == 0
    }
    &&& e.is_dir ==> {
        &&& entries_at(d1, e.addr).len() == 0
        &&& next_at(d1, e.addr) == 0
    }
}

/// The tables as `tabled` describes them, with nothing else written but to
/// free sectors, have grown as `grew` says.
pub proof fn lemma_grew(d0: Seq<[u8; 512]>, d1: Seq<[u8; 512]>, head: u32, e: Entry)
    requires
        d1.len() == d0.len(),
        d0.len() <= u32::MAX,
        entry_ok(e),
        tabled(d0, d1, head, e),
        forall|a: int|
            0 <= a < d0.len() && #[trigger] d1[a] != d0[a] ==> is_free(d0[a]) || slot_table(slot_for(d0, head, d0.len()))
                == Some(a as u32),
        e.is_dir ==> e.addr < d0.len() && d1[e.addr as int]@ == table_image(0, Seq::<Entry>::empty(), true),
    ensures
        grew(d0, d1, head, e),
{
    lemma_slot_for(d0, head, d0.len());
    lemma_blank_sector();
    lemma_table_roundtrip(0, Seq::<Entry>::empty(), true);
    match slot_for(d0, head, d0.len()) {
        Slot::Room(t) => {
            lemma_tabled_entries(d0, t, e);
            lemma_table_roundtrip(next_at(d0, t), entries_at(d0, t).push(e), true);
        },
        Slot::Grow(t) => {
            lemma_sector_entries_ok(sector_at(d0, t), 8);
            lemma_table_roundtrip(nth_free(d0, 0) as u32, entries_at(d0, t), true);
            assert(entries_ok(seq![e]));
            lemma_table_roundtrip(0, seq![e], true);
        },
        Slot::Full => {},
    }
    assert forall|b: u32| #[trigger] live(d0, b) implies {
        &&& live(d1, b)
        &&& entries_at(d1, b) == if slot_for(d0, head, d0.len()) == Slot::Room(b) {
            entries_at(d0, b).push(e)
        } else {
            entries_at(d0, b)
        }
        &&& next_at(d1, b) == if slot_for(d0, head, d0.len()) == Slot::Grow(b) {
            nth_free(d0, 0) as u32
        } else {
            next_at(d0, b)
        }
    } by {
        lemma_live_not_free(d0, b);
        if slot_table(slot_for(d0, head, d0.len())) != Some(b) {
            assert(d1[b as int] == d0[b as int]);
        }
    }
    assert forall|b: u32| #[trigger] live(d1, b) && !live(d0, b) implies b < d0.len() && is_free(d0[b as int]) by {
        lemma_live_not_free(d1, b);
        if d1[b as int] == d0[b as int] {
            assert(sector_at(d1, b) == sector_at(d0, b));
        }
    }
}

/// The head table of a directory that a path names is live, and so is the
/// root the path starts from.
pub proof fn lemma_resolved_live(disk: Seq<[u8; 512]>, root: u32, path: Seq<Seq<char>>)
    requires
        resolve_dir(disk, root, path) is Some,
    ensures
        live(disk, resolve_dir(disk, root, path)->0),
        live(disk, root),
    decreases path.len(),
{
    if path.len() > 0 {
        lemma_resolved_live(disk, root, path.drop_last());
    }
}

/// On a sealed disk, what a directory lists under a name after an entry
/// was placed is that entry, or what it listed under the name before.
pub proof fn lemma_locate_grew(
    d0: Seq<[u8; 512]>,
    d1: Seq<[u8; 512]>,
    head: u32,
    e: Entry,
    a: u32,
    fuel: nat,
    name: Seq<char>,
    is_dir: bool,
)
    requires
        grew(d0, d1, head, e),
        sealed(d0),
        live(d0, a),
        locate(d1, a, fuel, name, is_dir) is Some,
    ensures
        ({
            let (t1, i1) = locate(d1, a, fuel, name, is_dir)->0;
            ||| entries_at(d1, t1)[i1] == e
            ||| (locate(d0, a, fuel, name, is_dir) is Some && ({
                let (t0, i0) = locate(d0, a, fuel, name, is_dir)->0;
                entries_at(d0, t0)[i0] == entries_at(d1, t1)[i1]
            }))
        }),
    decreases fuel,
{
    let es0 = entries_at(d0, a);
    let es1 = entries_at(d1, a);
    lemma_first_hit(es0, name, is_dir);
    lemma_first_hit(es1, name, is_dir);
    lemma_first_hit_push(es0, e, name, is_dir);
    assert(live(d1, a));
    if first_hit(es1, name, is_dir) >= 0 {
        let r = first_hit(es1, name, is_dir);
        if r < es0.len() && es1 != es0 {
            assert(es0.push(e)[r] == es0[r]);
        }
        if es1 != es0 && r == es0.len() {
            assert(es0.push(e)[r] == e);
        }
    } else {
        let n1 = next_at(d1, a);
        assert(live(d1, n1));
        if slot_for(d0, head, d0.len()) == Slot::Grow(a) {
            let hit = locate(d1, n1, (fuel - 1) as nat, name, is_dir)->0;
            lemma_first_hit(seq![e], name, is_dir);
        } else {
            if !live(d0, n1) {
                assert(is_free(d0[n1 as int]));
            }
            lemma_locate_grew(d0, d1, head, e, n1, (fuel - 1) as nat, name, is_dir);
        }
    }
}

/// On a sealed disk, a directory that a path names after an entry was
/// placed is one the path named before, or the directory that the entry
/// stands for.
pub proof fn lemma_resolve_grew(d0: Seq<[u8; 512]>, d1: Seq<[u8; 512]>, head: u32, e: Entry, root: u32, path: Seq<Seq<char>>)
    requires
        grew(d0, d1, head, e),
        sealed(d0),
        live(d0, root),
        resolve_dir(d1, root, path) is Some,
    ensures
        resolve_dir(d0, root, path) == resolve_dir(d1, root, path) || (e.is_dir && resolve_dir(d1, root, path) == Some(
            e.addr,
        )),
    decreases path.len(),
{
    if path.len() > 0 {
        let parent = path.drop_last();
        lemma_resolve_grew(d0, d1, head, e, root, parent);
        let h = resolve_dir(d1, root, parent)->0;
        if resolve_dir(d0, root, parent) == Some(h) {
            lemma_resolved_live(d0, root, parent);
            lemma_locate_hit(d1, h, d1.len(), path.last(), true);
            lemma_locate_grew(d0, d1, head, e, h, d0.len(), path.last(), true);
            let (t1, i1) = locate(d1, h, d1.len(), path.last(), true)->0;
            let x = entries_at(d1, t1)[i1];
            if locate(d0, h, d0.len(), path.last(), true) is Some {
                let (t0, i0) = locate(d0, h, d0.len(), path.last(), true)->0;
                lemma_locate_hit(d0, h, d0.len(), path.last(), true);
                if entries_at(d0, t0)[i0] == x && !live(d0, x.addr) {
                    assert(is_free(d0[x.addr as int]));
                    assert(entries_at(d0, t0)[i0].is_dir);
                }
            }
        } else {
            lemma_first_hit(Seq::<Entry>::empty(), path.last(), true);
            assert(entries_at(d1, e.addr) =~= Seq::<Entry>::empty());
        }
    }
}

/// On a sealed disk, placing an entry makes nothing else appear: a path
/// that named nothing before names nothing afterwards, or names the new
/// entry.
pub proof fn lemma_lookup_grew(
    d0: Seq<[u8; 512]>,
    d1: Seq<[u8; 512]>,
    head: u32,
    e: Entry,
    root: u32,
    path: Seq<Seq<char>>,
    is_dir: bool,
)
    requires
        grew(d0, d1, head, e),
        sealed(d0),
        live(d0, root),
        lookup(d0, root, path, is_dir) is None,
    ensures
        lookup(d1, root, path, is_dir) is None || lookup(d1, root, path, is_dir) == Some(e),
{
    if path.len() > 0 && resolve_dir(d1, root, path.drop_last()) is Some {
        let parent = path.drop_last();
        lemma_resolve_grew(d0, d1, head, e, root, parent);
        let h = resolve_dir(d1, root, parent)->0;
        if resolve_dir(d0, root, parent) == Some(h) {
            lemma_resolved_live(d0, root, parent);
            if locate(d1, h, d1.len(), path.last(), is_dir) is Some {
                lemma_locate_grew(d0, d1, head, e, h, d0.len(), path.last(), is_dir);
            }
        } else {
            lemma_first_hit(Seq::<Entry>::empty(), path.last(), is_dir);
            assert(entries_at(d1, e.addr) =~= Seq::<Entry>::empty());
        }
    }
}

/// Whether the directory with head table `h` keeps its entries when an
/// entry is placed in the directory with head table `head`: the table that
/// takes the entry in a free slot is none of its tables.
pub open spec fn apart(d0: Seq<[u8; 512]>, head: u32, h: u32) -> bool {
    match slot_for(d0, head, d0.len()) {
        Slot::Room(t) => !table_chain(d0, h, d0.len()).contains(t),
        _ => true,
    }
}

/// What a chain of tables listed under a name before an entry was placed,
/// it lists afterwards, provided the new entry does not bear that name or
/// went into none of the chain's tables.
pub proof fn lemma_locate_kept(
    d0: Seq<[u8; 512]>,
    d1: Seq<[u8; 512]>,
    head: u32,
    e: Entry,
    a: u32,
    fuel: nat,
    name: Seq<char>,
    is_dir: bool,
)
    requires
        grew(d0, d1, head, e),
        locate(d0, a, fuel, name, is_dir) is Some,
        !hits(e, name, is_dir) || (match slot_for(d0, head, d0.len()) {
            Slot::Room(t) => !table_chain(d0, a, fuel).contains(t),
            _ => true,
        }),
    ensures
        locate(d1, a, fuel, name, is_dir) == locate(d0, a, fuel, name, is_dir),
        ({
            let (t, i) = locate(d0, a, fuel, name, is_dir)->0;
            &&& 0 <= i < entries_at(d0, t).len()
            &&& i < entries_at(d1, t).len()
            &&& entries_at(d1, t)[i] == entries_at(d0, t)[i]
        }),
    decreases fuel,
{
    let es0 = entries_at(d0, a);
    assert(live(d0, a));
    lemma_first_hit(es0, name, is_dir);
    lemma_first_hit_push(es0, e, name, is_dir);
    lemma_blank_sector();
    lemma_slot_for(d0, head, d0.len());
    let chain = table_chain(d0, a, fuel);
    assert(chain[0] == a);
    assert(chain.contains(a));
    if first_hit(es0, name, is_dir) >= 0 {
        let i = first_hit(es0, name, is_dir);
        assert(es0.push(e)[i] == es0[i]);
    } else {
        let n = next_at(d0, a);
        assert(locate(d0, n, (fuel - 1) as nat, name, is_dir) is Some);
        assert(live(d0, n));
        let rest = table_chain(d0, n, (fuel - 1) as nat);
        assert(chain =~= seq![a] + rest);
        assert forall|t: u32| rest.contains(t) implies chain.contains(t) by {
            let j = choose|j: int| 0 <= j < rest.len() && rest[j] == t;
            assert(chain[j + 1] == t);
        }
        lemma_locate_kept(d0, d1, head, e, n, (fuel - 1) as nat, name, is_dir);
    }
}

/// A directory path that resolved before an entry was placed resolves to
/// the same head table afterwards, provided that at every level of the
/// path the new entry is no directory of the name asked for, or went into
/// none of the tables of the directory searched.
pub proof fn lemma_resolve_kept(d0: Seq<[u8; 512]>, d1: Seq<[u8; 512]>, head: u32, e: Entry, root: u32, path: Seq<Seq<char>>)
    requires
        grew(d0, d1, head, e),
        resolve_dir(d0, root, path) is Some,
        forall|i: int|
            0 <= i < path.len() ==> !hits(e, #[trigger] path[i], true) || apart(
                d0,
                head,
                resolve_dir(d0, root, path.take(i))->0,
            ),
    ensures
        resolve_dir(d1, root, path) == resolve_dir(d0, root, path),
    decreases path.len(),
{
    if path.len() == 0 {
        assert(live(d0, root));
    } else {
        let parent = path.drop_last();
        assert forall|i: int| 0 <= i < parent.len() implies !hits(e, #[trigger] parent[i], true) || apart(
            d0,
            head,
            resolve_dir(d0, root, parent.take(i))->0,
        ) by {
            assert(parent[i] == path[i]);
            assert(parent.take(i) =~= path.take(i));
        }
        lemma_resolve_kept(d0, d1, head, e, root, parent);
        let h = resolve_dir(d0, root, parent)->0;
        assert(path.take(path.len() - 1) =~= parent);
        assert(!hits(e, path[path.len() - 1], true) || apart(d0, head, h));
        lemma_locate_kept(d0, d1, head, e, h, d0.len(), path.last(), true);
        let (t, i) = locate(d0, h, d0.len(), path.last(), true)->0;
        assert(live(d0, entries_at(d0, t)[i].addr));
    }
}

/// Whatever a path named before an entry was placed, it names afterwards,
/// provided that at every level of the path the new entry is not of the
/// name and kind asked for, or went into none of the tables of the
/// directory searched.
pub proof fn lemma_lookup_kept(
    d0: Seq<[u8; 512]>,
    d1: Seq<[u8; 512]>,
    head: u32,
    e: Entry,
    root: u32,
    path: Seq<Seq<char>>,
    is_dir: bool,
)
    requires
        grew(d0, d1, head, e),
        lookup(d0, root, path, is_dir) is Some,
        forall|i: int|
            0 <= i < path.len() - 1 ==> !hits(e, #[trigger] path[i], true) || apart(
                d0,
                head,
                resolve_dir(d0, root, path.take(i))->0,
            ),
        !hits(e, path.last(), is_dir) || apart(d0, head, resolve_dir(d0, root, path.drop_last())->0),
    ensures
        lookup(d1, root, path, is_dir) == lookup(d0, root, path, is_dir),
{
    let parent = path.drop_last();
    assert forall|i: int| 0 <= i < parent.len() implies !hits(e, #[trigger] parent[i], true) || apart(
        d0,
        head,
        resolve_dir(d0, root, parent.take(i))->0,
    ) by {
        assert(parent[i] == path[i]);
        assert(parent.take(i) =~= path.take(i));
    }
    lemma_resolve_kept(d0, d1, head, e, root, parent);
    lemma_locate_kept(d0, d1, head, e, resolve_dir(d0, root, parent)->0, d0.len(), path.last(), is_dir);
}

} // verus!

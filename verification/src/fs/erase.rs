//! Taking an entry out of a directory and zeroing the sectors it owned,
//! and what lookups find afterwards.

use crate::ata::{is_free, Drive};
use crate::fs::data::DataSector;
use crate::fs::layout::{entries_ok, entry_ok, lemma_sector_entries_ok, lemma_table_roundtrip, sector_at, table_image, Entry};
use crate::fs::place::lemma_live_not_free;
use crate::fs::table::{first_hit, hits, lemma_first_hit, lemma_first_hit_remove_none, lemma_first_hit_remove_other, FileTableSector};
use crate::fs::tree::{data_chain, dir_entries, entries_at, file_sectors, found, live, locate, lookup, next_at, resolve_dir, table_chain};
use vstd::prelude::*;

verus! {

/// `d1` is `d0` with every sector of `victims` zeroed and the sector at `t`
/// replaced by `img`; a victim stays zeroed even if it is `t`.
pub open spec fn erased(d0: Seq<[u8; 512]>, d1: Seq<[u8; 512]>, victims: Seq<u32>, t: u32, img: Seq<u8>) -> bool {
    &&& d1.len() == d0.len()
    &&& forall|a: int|
        0 <= a < d0.len() ==> if victims.contains(a as u32) {
            is_free(#[trigger] d1[a])
        } else if a == t {
            d1[a]@ == img
        } else {
            d1[a] == d0[a]
        }
}

/// Every table that is live on `d1` was live on `d0`, with the same
/// continuation and the same entries, except that table `t` lost its entry
/// at position `i`.
pub open spec fn shrinks(d0: Seq<[u8; 512]>, d1: Seq<[u8; 512]>, t: u32, i: int) -> bool {
    &&& d1.len() == d0.len()
    &&& forall|a: u32| #[trigger]
        live(d1, a) ==> {
            &&& live(d0, a)
            &&& next_at(d1, a) == next_at(d0, a)
            &&& entries_at(d1, a) == if a == t {
                entries_at(d0, a).remove(i)
            } else {
                entries_at(d0, a)
            }
        }
}

/// The directory with head table `a` lists at most one entry of the given
/// name and kind.
pub open spec fn sole(disk: Seq<[u8; 512]>, a: u32, fuel: nat, name: Seq<char>, is_dir: bool) -> bool
    decreases fuel,
{
    if fuel == 0 || !live(disk, a) {
        true
    } else if first_hit(entries_at(disk, a), name, is_dir) >= 0 {
        &&& first_hit(entries_at(disk, a).remove(first_hit(entries_at(disk, a), name, is_dir)), name, is_dir) < 0
        &&& (next_at(disk, a) == 0 || locate(disk, next_at(disk, a), (fuel - 1) as nat, name, is_dir) is None)
    } else {
        next_at(disk, a) == 0 || sole(disk, next_at(disk, a), (fuel - 1) as nat, name, is_dir)
    }
}

/// Erasing sectors and rewriting a live table without one of its entries
/// shrinks the disk.
pub proof fn lemma_erased_shrinks(d0: Seq<[u8; 512]>, d1: Seq<[u8; 512]>, victims: Seq<u32>, t: u32, i: int)
    requires
        live(d0, t),
        0 <= i < entries_at(d0, t).len(),
        erased(d0, d1, victims, t, table_image(next_at(d0, t), entries_at(d0, t).remove(i), true)),
    ensures
        shrinks(d0, d1, t, i),
{
    let es = entries_at(d0, t);
    lemma_live_not_free(d0, t);
    lemma_sector_entries_ok(sector_at(d0, t), 8);
    es.remove_ensures(i);
    assert(entries_ok(es.remove(i))) by {
        assert forall|j: int| 0 <= j < es.remove(i).len() implies entry_ok(
            #[trigger] es.remove(i)[j],
        ) by {
            if j < i {
                assert(es.remove(i)[j] == es[j]);
            } else {
                assert(es.remove(i)[j] == es[j + 1]);
            }
        }
    }
    lemma_table_roundtrip(next_at(d0, t), es.remove(i), true);
    assert forall|a: u32| #[trigger] live(d1, a) implies {
        &&& live(d0, a)
        &&& next_at(d1, a) == next_at(d0, a)
        &&& entries_at(d1, a) == if a == t {
            entries_at(d0, a).remove(i)
        } else {
            entries_at(d0, a)
        }
    } by {
        lemma_live_not_free(d1, a);
        assert(!victims.contains(a));
        if a != t {
            assert(d1[a as int] == d0[a as int]);
        }
    }
}

/// A lookup that finds nothing finds nothing after the disk shrank.
pub proof fn lemma_none_shrinks(
    d0: Seq<[u8; 512]>,
    d1: Seq<[u8; 512]>,
    t: u32,
    i: int,
    a: u32,
    fuel: nat,
    name: Seq<char>,
    is_dir: bool,
)
    requires
        shrinks(d0, d1, t, i),
        0 <= i < entries_at(d0, t).len(),
        locate(d0, a, fuel, name, is_dir) is None,
    ensures
        locate(d1, a, fuel, name, is_dir) is None,
    decreases fuel,
{
    if fuel > 0 && live(d1, a) {
        assert(live(d0, a));
        if a == t {
            lemma_first_hit_remove_none(entries_at(d0, a), i, name, is_dir);
        }
        if next_at(d0, a) != 0 {
            lemma_none_shrinks(d0, d1, t, i, next_at(d0, a), (fuel - 1) as nat, name, is_dir);
        }
    }
}

/// After the only entry of its name and kind was taken out of a directory,
/// the directory lists none.
pub proof fn lemma_sole_shrinks(
    d0: Seq<[u8; 512]>,
    d1: Seq<[u8; 512]>,
    t: u32,
    i: int,
    a: u32,
    fuel: nat,
    name: Seq<char>,
    is_dir: bool,
)
    requires
        shrinks(d0, d1, t, i),
        sole(d0, a, fuel, name, is_dir),
        locate(d0, a, fuel, name, is_dir) == Some((t, i)),
    ensures
        locate(d1, a, fuel, name, is_dir) is None,
    decreases fuel,
{
    if fuel > 0 && live(d1, a) {
        assert(live(d0, a));
        let es0 = entries_at(d0, a);
        lemma_first_hit(es0, name, is_dir);
        if first_hit(es0, name, is_dir) >= 0 {
            assert(a == t && i == first_hit(es0, name, is_dir));
            if next_at(d0, a) != 0 {
                lemma_none_shrinks(d0, d1, t, i, next_at(d0, a), (fuel - 1) as nat, name, is_dir);
            }
        } else {
            lemma_locate_hit(d0, next_at(d0, a), (fuel - 1) as nat, name, is_dir);
            assert(a != t);
            lemma_sole_shrinks(d0, d1, t, i, next_at(d0, a), (fuel - 1) as nat, name, is_dir);
        }
    }
}

/// What `locate` points at is a hit in a live table, and the first one of
/// that table.
pub proof fn lemma_locate_hit(disk: Seq<[u8; 512]>, a: u32, fuel: nat, name: Seq<char>, is_dir: bool)
    requires
        locate(disk, a, fuel, name, is_dir) is Some,
    ensures
        ({
            let (t, i) = locate(disk, a, fuel, name, is_dir)->0;
            &&& live(disk, t)
            &&& i == first_hit(entries_at(disk, t), name, is_dir)
            &&& 0 <= i < entries_at(disk, t).len()
            &&& hits(entries_at(disk, t)[i], name, is_dir)
        }),
    decreases fuel,
{
    lemma_first_hit(entries_at(disk, a), name, is_dir);
    if first_hit(entries_at(disk, a), name, is_dir) < 0 {
        lemma_locate_hit(disk, next_at(disk, a), (fuel - 1) as nat, name, is_dir);
    }
}

/// A lookup of the other kind that succeeds after a disk shrank succeeded
/// before, with the same entry.
pub proof fn lemma_found_shrinks(
    d0: Seq<[u8; 512]>,
    d1: Seq<[u8; 512]>,
    t: u32,
    i: int,
    a: u32,
    fuel: nat,
    name: Seq<char>,
    is_dir: bool,
)
    requires
        shrinks(d0, d1, t, i),
        0 <= i < entries_at(d0, t).len(),
        !hits(entries_at(d0, t)[i], name, is_dir),
        locate(d1, a, fuel, name, is_dir) is Some,
    ensures
        locate(d0, a, fuel, name, is_dir) is Some,
        ({
            let (t0, i0) = locate(d0, a, fuel, name, is_dir)->0;
            let (t1, i1) = locate(d1, a, fuel, name, is_dir)->0;
            t0 == t1 && entries_at(d0, t0)[i0] == entries_at(d1, t1)[i1]
        }),
    decreases fuel,
{
    assert(live(d1, a));
    assert(live(d0, a));
    let es0 = entries_at(d0, a);
    let es1 = entries_at(d1, a);
    lemma_first_hit(es0, name, is_dir);
    lemma_first_hit(es1, name, is_dir);
    if a == t {
        lemma_first_hit_remove_other(es0, i, name, is_dir);
    }
    if first_hit(es1, name, is_dir) < 0 {
        lemma_found_shrinks(d0, d1, t, i, next_at(d0, a), (fuel - 1) as nat, name, is_dir);
    }
}

/// A directory path that resolves after an entry was taken out resolved to
/// the same head table before, provided the entry taken out was not a
/// directory that a component of the path names.
pub proof fn lemma_resolve_shrinks(d0: Seq<[u8; 512]>, d1: Seq<[u8; 512]>, t: u32, i: int, root: u32, path: Seq<Seq<char>>)
    requires
        shrinks(d0, d1, t, i),
        0 <= i < entries_at(d0, t).len(),
        forall|k: int| 0 <= k < path.len() ==> !hits(entries_at(d0, t)[i], #[trigger] path[k], true),
        resolve_dir(d1, root, path) is Some,
    ensures
        resolve_dir(d0, root, path) == resolve_dir(d1, root, path),
    decreases path.len(),
{
    if path.len() == 0 {
        assert(live(d1, root));
    } else {
        let parent = path.drop_last();
        assert forall|k: int| 0 <= k < parent.len() implies !hits(entries_at(d0, t)[i], #[trigger] parent[k], true) by {
            assert(parent[k] == path[k]);
        }
        lemma_resolve_shrinks(d0, d1, t, i, root, parent);
        let h = resolve_dir(d1, root, parent)->0;
        assert(!hits(entries_at(d0, t)[i], path[path.len() - 1], true));
        lemma_found_shrinks(d0, d1, t, i, h, d0.len(), path.last(), true);
        let e = found(d1, h, path.last(), true)->0;
        assert(live(d1, e.addr));
    }
}

/// Every table that was live on `d0` is live on `d1`, with the same
/// continuation and the same entries, except that table `t` lost its entry
/// at position `i`.
pub open spec fn spares(d0: Seq<[u8; 512]>, d1: Seq<[u8; 512]>, t: u32, i: int) -> bool {
    &&& d1.len() == d0.len()
    &&& forall|a: u32| #[trigger]
        live(d0, a) ==> {
            &&& live(d1, a)
            &&& next_at(d1, a) == next_at(d0, a)
            &&& entries_at(d1, a) == if a == t {
                entries_at(d0, a).remove(i)
            } else {
                entries_at(d0, a)
            }
        }
}

/// Erasing sectors of which none was a live table, and rewriting a live
/// table without one of its entries, spares every table.
pub proof fn lemma_erased_spares(d0: Seq<[u8; 512]>, d1: Seq<[u8; 512]>, victims: Seq<u32>, t: u32, i: int)
    requires
        live(d0, t),
        0 <= i < entries_at(d0, t).len(),
        erased(d0, d1, victims, t, table_image(next_at(d0, t), entries_at(d0, t).remove(i), true)),
        forall|a: u32| victims.contains(a) ==> !#[trigger] live(d0, a),
    ensures
        spares(d0, d1, t, i),
{
    let es = entries_at(d0, t);
    lemma_live_not_free(d0, t);
    lemma_sector_entries_ok(sector_at(d0, t), 8);
    es.remove_ensures(i);
    assert(entries_ok(es.remove(i))) by {
        assert forall|j: int| 0 <= j < es.remove(i).len() implies entry_ok(#[trigger] es.remove(i)[j]) by {
            if j < i {
                assert(es.remove(i)[j] == es[j]);
            } else {
                assert(es.remove(i)[j] == es[j + 1]);
            }
        }
    }
    lemma_table_roundtrip(next_at(d0, t), es.remove(i), true);
    assert forall|a: u32| #[trigger] live(d0, a) implies {
        &&& live(d1, a)
        &&& next_at(d1, a) == next_at(d0, a)
        &&& entries_at(d1, a) == if a == t {
            entries_at(d0, a).remove(i)
        } else {
            entries_at(d0, a)
        }
    } by {
        lemma_live_not_free(d0, a);
        assert(!victims.contains(a));
        if a != t {
            assert(d1[a as int] == d0[a as int]);
        }
    }
}

/// What a directory listed before an entry was taken out of a spared disk,
/// it lists afterwards, unless it is the entry taken out that was asked
/// for.
pub proof fn lemma_found_spared(
    d0: Seq<[u8; 512]>,
    d1: Seq<[u8; 512]>,
    t: u32,
    i: int,
    a: u32,
    fuel: nat,
    name: Seq<char>,
    is_dir: bool,
)
    requires
        spares(d0, d1, t, i),
        0 <= i < entries_at(d0, t).len(),
        !hits(entries_at(d0, t)[i], name, is_dir),
        locate(d0, a, fuel, name, is_dir) is Some,
    ensures
        locate(d1, a, fuel, name, is_dir) is Some,
        ({
            let (t0, i0) = locate(d0, a, fuel, name, is_dir)->0;
            let (t1, i1) = locate(d1, a, fuel, name, is_dir)->0;
            entries_at(d0, t0)[i0] == entries_at(d1, t1)[i1]
        }),
    decreases fuel,
{
    assert(live(d0, a));
    let es0 = entries_at(d0, a);
    lemma_first_hit(es0, name, is_dir);
    if a == t {
        lemma_first_hit_remove_other(es0, i, name, is_dir);
    }
    if first_hit(es0, name, is_dir) < 0 {
        lemma_found_spared(d0, d1, t, i, next_at(d0, a), (fuel - 1) as nat, name, is_dir);
    }
}

/// Whatever a path named before an entry was taken out of a spared disk,
/// it names afterwards, provided the entry taken out is not what the path
/// asks for at any of its levels.
pub proof fn lemma_lookup_spared(
    d0: Seq<[u8; 512]>,
    d1: Seq<[u8; 512]>,
    t: u32,
    i: int,
    root: u32,
    path: Seq<Seq<char>>,
    is_dir: bool,
)
    requires
        spares(d0, d1, t, i),
        0 <= i < entries_at(d0, t).len(),
        lookup(d0, root, path, is_dir) is Some,
        forall|k: int| 0 <= k < path.len() - 1 ==> !hits(entries_at(d0, t)[i], #[trigger] path[k], true),
        !hits(entries_at(d0, t)[i], path.last(), is_dir),
    ensures
        lookup(d1, root, path, is_dir) == lookup(d0, root, path, is_dir),
{
    let parent = path.drop_last();
    assert forall|k: int| 0 <= k < parent.len() implies !hits(entries_at(d0, t)[i], #[trigger] parent[k], true) by {
        assert(parent[k] == path[k]);
    }
    lemma_resolve_spared(d0, d1, t, i, root, parent);
    lemma_found_spared(d0, d1, t, i, resolve_dir(d0, root, parent)->0, d0.len(), path.last(), is_dir);
}

/// A directory path that resolved before an entry was taken out of a
/// spared disk resolves to the same head table afterwards, provided the
/// entry taken out was not a directory that a component of the path names.
pub proof fn lemma_resolve_spared(d0: Seq<[u8; 512]>, d1: Seq<[u8; 512]>, t: u32, i: int, root: u32, path: Seq<Seq<char>>)
    requires
        spares(d0, d1, t, i),
        0 <= i < entries_at(d0, t).len(),
        forall|k: int| 0 <= k < path.len() ==> !hits(entries_at(d0, t)[i], #[trigger] path[k], true),
        resolve_dir(d0, root, path) is Some,
    ensures
        resolve_dir(d1, root, path) == resolve_dir(d0, root, path),
    decreases path.len(),
{
    if path.len() == 0 {
        assert(live(d0, root));
    } else {
        let parent = path.drop_last();
        assert forall|k: int| 0 <= k < parent.len() implies !hits(entries_at(d0, t)[i], #[trigger] parent[k], true) by {
            assert(parent[k] == path[k]);
        }
        lemma_resolve_spared(d0, d1, t, i, root, parent);
        let h = resolve_dir(d0, root, parent)->0;
        assert(!hits(entries_at(d0, t)[i], path[path.len() - 1], true));
        lemma_found_spared(d0, d1, t, i, h, d0.len(), path.last(), true);
        let e = found(d0, h, path.last(), true)->0;
        assert(live(d0, e.addr));
    }
}

/// Deleting a file whose data sectors were not live tables leaves every
/// directory, and every file of another name, where a path found it.
pub proof fn lemma_removed_spares_lookups(
    d0: Seq<[u8; 512]>,
    d1: Seq<[u8; 512]>,
    root: u32,
    path: Seq<Seq<char>>,
    other: Seq<Seq<char>>,
    is_dir: bool,
)
    requires
        file_removed(d0, d1, root, path),
        forall|a: u32| file_sectors(d0, lookup(d0, root, path, false)->0.addr).contains(a) ==> !#[trigger] live(d0, a),
        lookup(d0, root, other, is_dir) is Some,
        is_dir || other.last() != path.last(),
    ensures
        lookup(d1, root, other, is_dir) == lookup(d0, root, other, is_dir),
{
    let h = resolve_dir(d0, root, path.drop_last())->0;
    let (t, i) = locate(d0, h, d0.len(), path.last(), false)->0;
    lemma_locate_hit(d0, h, d0.len(), path.last(), false);
    lemma_erased_spares(d0, d1, file_sectors(d0, entries_at(d0, t)[i].addr), t, i);
    lemma_lookup_spared(d0, d1, t, i, root, other, is_dir);
}

/// What deleting the file that `path` names leaves behind: its data
/// sectors zeroed, and its entry gone from the table that listed it.
pub open spec fn file_removed(d0: Seq<[u8; 512]>, d1: Seq<[u8; 512]>, root: u32, path: Seq<Seq<char>>) -> bool {
    &&& path.len() > 0
    &&& resolve_dir(d0, root, path.drop_last()) is Some
    &&& locate(d0, resolve_dir(d0, root, path.drop_last())->0, d0.len(), path.last(), false) is Some
    &&& ({
        let (t, i) = locate(d0, resolve_dir(d0, root, path.drop_last())->0, d0.len(), path.last(), false)->0;
        erased(
            d0,
            d1,
            file_sectors(d0, entries_at(d0, t)[i].addr),
            t,
            table_image(next_at(d0, t), entries_at(d0, t).remove(i), true),
        )
    })
}

/// What deleting the directory that `path` names leaves behind: its table
/// sectors zeroed, and its entry gone from the table that listed it.
pub open spec fn dir_removed(d0: Seq<[u8; 512]>, d1: Seq<[u8; 512]>, root: u32, path: Seq<Seq<char>>) -> bool {
    &&& path.len() > 0
    &&& resolve_dir(d0, root, path.drop_last()) is Some
    &&& locate(d0, resolve_dir(d0, root, path.drop_last())->0, d0.len(), path.last(), true) is Some
    &&& ({
        let (t, i) = locate(d0, resolve_dir(d0, root, path.drop_last())->0, d0.len(), path.last(), true)->0;
        erased(
            d0,
            d1,
            table_chain(d0, entries_at(d0, t)[i].addr, d0.len()),
            t,
            table_image(next_at(d0, t), entries_at(d0, t).remove(i), true),
        )
    })
}

/// The parent directory of `path` lists at most one file by the last
/// component's name.
pub open spec fn sole_file(disk: Seq<[u8; 512]>, root: u32, path: Seq<Seq<char>>) -> bool {
    path.len() > 0 && match resolve_dir(disk, root, path.drop_last()) {
        Some(h) => sole(disk, h, disk.len(), path.last(), false),
        None => true,
    }
}

/// The parent directory of `path` lists at most one directory by the last
/// component's name, and no directory on the way down to it bears that
/// name.
pub open spec fn sole_dir(disk: Seq<[u8; 512]>, root: u32, path: Seq<Seq<char>>) -> bool {
    &&& path.len() > 0
    &&& forall|k: int| 0 <= k < path.len() - 1 ==> #[trigger] path[k] != path.last()
    &&& match resolve_dir(disk, root, path.drop_last()) {
        Some(h) => sole(disk, h, disk.len(), path.last(), true),
        None => true,
    }
}

/// Deleting a directory that is the only one of its name in its parent,
/// and whose name no directory on the way down bears, leaves no directory
/// of that name there: looking it up again finds nothing.
pub proof fn lemma_dir_removed_is_gone(d0: Seq<[u8; 512]>, d1: Seq<[u8; 512]>, root: u32, path: Seq<Seq<char>>)
    requires
        dir_removed(d0, d1, root, path),
        sole_dir(d0, root, path),
    ensures
        lookup(d1, root, path, true) is None,
{
    let h = resolve_dir(d0, root, path.drop_last())->0;
    let (t, i) = locate(d0, h, d0.len(), path.last(), true)->0;
    lemma_locate_hit(d0, h, d0.len(), path.last(), true);
    lemma_erased_shrinks(d0, d1, table_chain(d0, entries_at(d0, t)[i].addr, d0.len()), t, i);
    if resolve_dir(d1, root, path.drop_last()) is Some {
        assert forall|k: int| 0 <= k < path.drop_last().len() implies !hits(
            entries_at(d0, t)[i],
            #[trigger] path.drop_last()[k],
            true,
        ) by {
            assert(path.drop_last()[k] == path[k]);
        }
        lemma_resolve_shrinks(d0, d1, t, i, root, path.drop_last());
        lemma_sole_shrinks(d0, d1, t, i, h, d0.len(), path.last(), true);
    }
}

/// Deleting a file that is the only one of its name in its directory
/// leaves no file of that name there: looking it up again finds nothing.
pub proof fn lemma_removed_is_gone(d0: Seq<[u8; 512]>, d1: Seq<[u8; 512]>, root: u32, path: Seq<Seq<char>>)
    requires
        file_removed(d0, d1, root, path),
        sole_file(d0, root, path),
    ensures
        lookup(d1, root, path, false) is None,
{
    let h = resolve_dir(d0, root, path.drop_last())->0;
    let (t, i) = locate(d0, h, d0.len(), path.last(), false)->0;
    lemma_locate_hit(d0, h, d0.len(), path.last(), false);
    lemma_erased_shrinks(d0, d1, file_sectors(d0, entries_at(d0, t)[i].addr), t, i);
    if resolve_dir(d1, root, path.drop_last()) is Some {
        lemma_resolve_shrinks(d0, d1, t, i, root, path.drop_last());
        lemma_sole_shrinks(d0, d1, t, i, h, d0.len(), path.last(), false);
    }
}

/// After a file was deleted, every sector of its data chain is zeroed, so
/// the allocator counts it as free.
pub proof fn lemma_removed_frees(d0: Seq<[u8; 512]>, d1: Seq<[u8; 512]>, root: u32, path: Seq<Seq<char>>, j: int)
    requires
        file_removed(d0, d1, root, path),
        lookup(d0, root, path, false) is Some,
        0 <= j < file_sectors(d0, lookup(d0, root, path, false)->0.addr).len(),
    ensures
        file_sectors(d0, lookup(d0, root, path, false)->0.addr)[j] < d1.len(),
        is_free(d1[file_sectors(d0, lookup(d0, root, path, false)->0.addr)[j] as int]),
{
    let secs = file_sectors(d0, lookup(d0, root, path, false)->0.addr);
    lemma_chain_in_range(d0, lookup(d0, root, path, false)->0.addr, d0.len(), j);
    assert(secs.contains(secs[j]));
}

/// After a directory was deleted, none of its former table sectors carries
/// the table signature: each is zeroed.
pub proof fn lemma_dir_removed_dead(d0: Seq<[u8; 512]>, d1: Seq<[u8; 512]>, root: u32, path: Seq<Seq<char>>, j: int)
    requires
        dir_removed(d0, d1, root, path),
        lookup(d0, root, path, true) is Some,
        0 <= j < table_chain(d0, lookup(d0, root, path, true)->0.addr, d0.len()).len(),
    ensures
        !live(d1, table_chain(d0, lookup(d0, root, path, true)->0.addr, d0.len())[j]),
        is_free(d1[table_chain(d0, lookup(d0, root, path, true)->0.addr, d0.len())[j] as int]),
{
    let secs = table_chain(d0, lookup(d0, root, path, true)->0.addr, d0.len());
    lemma_tables_live(d0, lookup(d0, root, path, true)->0.addr, d0.len(), j);
    lemma_live_not_free(d0, secs[j]);
    assert(secs.contains(secs[j]));
    if live(d1, secs[j]) {
        lemma_live_not_free(d1, secs[j]);
    }
}

/// Every sector of a data chain lies on the disk.
pub proof fn lemma_chain_in_range(disk: Seq<[u8; 512]>, a: u32, fuel: nat, j: int)
    requires
        0 <= j < data_chain(disk, a, fuel).len(),
    ensures
        data_chain(disk, a, fuel)[j] < disk.len(),
    decreases fuel,
{
    if j > 0 {
        lemma_chain_in_range(disk, next_at(disk, a), (fuel - 1) as nat, j - 1);
    }
}

/// Every sector of a table chain is a live table.
pub proof fn lemma_tables_live(disk: Seq<[u8; 512]>, a: u32, fuel: nat, j: int)
    requires
        0 <= j < table_chain(disk, a, fuel).len(),
    ensures
        live(disk, table_chain(disk, a, fuel)[j]),
    decreases fuel,
{
    if j > 0 {
        lemma_tables_live(disk, next_at(disk, a), (fuel - 1) as nat, j - 1);
    }
}

/// The sectors of the data chain that starts at `addr`, in link order.
pub fn data_sectors(drive: &Drive, addr: u32) -> (v: Vec<u32>)
    ensures
        v@ == file_sectors(drive@, addr),
{
    let mut sectors: Vec<u32> = Vec::new();
    let mut fuel: u32 = drive.sectors;
    let mut cur: u32 = addr;
    proof {
        assert(sectors@ + file_sectors(drive@, addr) =~= file_sectors(drive@, addr));
    }
    while fuel > 0 && cur < drive.sectors
        invariant_except_break
            sectors@ + data_chain(drive@, cur, fuel as nat) == file_sectors(drive@, addr),
        invariant
            fuel <= drive.sectors,
        ensures
            sectors@ == file_sectors(drive@, addr),
        decreases fuel,
    {
        let sector = DataSector::load(cur, drive);
        let ghost before = sectors@;
        let ghost rest = if next_at(drive@, cur) == 0 {
            Seq::<u32>::empty()
        } else {
            data_chain(drive@, next_at(drive@, cur), (fuel - 1) as nat)
        };
        sectors.push(cur);
        proof {
            assert(data_chain(drive@, cur, fuel as nat) =~= seq![cur] + rest);
            assert(sectors@ + rest =~= before + (seq![cur] + rest));
        }
        match sector.continuation_addr {
            Some(next) => {
                cur = next;
            },
            None => {
                proof {
                    assert(sectors@ + rest =~= sectors@);
                }
                break;
            },
        }
        fuel -= 1;
    }
    proof {
        assert(sectors@ + Seq::<u32>::empty() =~= sectors@);
    }
    sectors
}

/// The live table sectors of the directory with head table `addr`, in link
/// order, and whether none of them holds an entry.
pub fn table_sectors(drive: &Drive, addr: u32) -> (r: (Vec<u32>, bool))
    ensures
        r.0@ == table_chain(drive@, addr, drive@.len()),
        r.1 == (dir_entries(drive@, addr, drive@.len()).len() == 0),
{
    let mut sectors: Vec<u32> = Vec::new();
    let mut empty = true;
    let mut fuel: u32 = drive.sectors;
    let mut cur: u32 = addr;
    let ghost mut seen: Seq<Entry> = Seq::empty();
    proof {
        assert(sectors@ + table_chain(drive@, addr, drive@.len()) =~= table_chain(drive@, addr, drive@.len()));
        assert(seen + dir_entries(drive@, addr, drive@.len()) =~= dir_entries(drive@, addr, drive@.len()));
    }
    while fuel > 0
        invariant_except_break
            sectors@ + table_chain(drive@, cur, fuel as nat) == table_chain(drive@, addr, drive@.len()),
            seen + dir_entries(drive@, cur, fuel as nat) == dir_entries(drive@, addr, drive@.len()),
        invariant
            fuel <= drive.sectors,
            empty == (seen.len() == 0),
        ensures
            sectors@ == table_chain(drive@, addr, drive@.len()),
            seen == dir_entries(drive@, addr, drive@.len()),
        decreases fuel,
    {
        let table = FileTableSector::load(cur, drive, None);
        if table.is_deleted {
            proof {
                assert(sectors@ + Seq::<u32>::empty() =~= sectors@);
                assert(seen + Seq::<Entry>::empty() =~= seen);
            }
            break;
        }
        let ghost before = sectors@;
        let ghost seen_before = seen;
        let ghost rest = if next_at(drive@, cur) == 0 {
            Seq::<u32>::empty()
        } else {
            table_chain(drive@, next_at(drive@, cur), (fuel - 1) as nat)
        };
        let ghost rest_entries = if next_at(drive@, cur) == 0 {
            Seq::<Entry>::empty()
        } else {
            dir_entries(drive@, next_at(drive@, cur), (fuel - 1) as nat)
        };
        sectors.push(cur);
        if table.files.len() != 0 {
            empty = false;
        }
        proof {
            seen = seen + table.entries();
            assert(table_chain(drive@, cur, fuel as nat) =~= seq![cur] + rest);
            assert(sectors@ + rest =~= before + (seq![cur] + rest));
            assert(dir_entries(drive@, cur, fuel as nat) =~= table.entries() + rest_entries);
            assert(seen + rest_entries =~= seen_before + (table.entries() + rest_entries));
        }
        match table.continuation_addr {
            Some(next) => {
                cur = next;
            },
            None => {
                proof {
                    assert(sectors@ + rest =~= sectors@);
                    assert(seen + rest_entries =~= seen);
                }
                break;
            },
        }
        fuel -= 1;
    }
    proof {
        assert(sectors@ + Seq::<u32>::empty() =~= sectors@);
        assert(seen + Seq::<Entry>::empty() =~= seen);
    }
    (sectors, empty)
}

/// Takes the entry at position `k` out of `table`, writes the table back,
/// and zeroes every sector of `victims`.
#[verifier::rlimit(40)]
pub fn drop_entry(drive: &mut Drive, table: FileTableSector, k: usize, victims: &Vec<u32>)
    requires
        table.mirrors(old(drive)@),
        !table.is_deleted,
        k < table.files@.len(),
    ensures
        final(drive).same_identity(*old(drive)),
        erased(
            old(drive)@,
            final(drive)@,
            victims@,
            table.addr,
            table_image(
                next_at(old(drive)@, table.addr),
                entries_at(old(drive)@, table.addr).remove(k as int),
                true,
            ),
        ),
{
    let ghost d0 = drive@;
    let ghost es = table.entries();
    let mut table = table;
    table.files.remove(k);
    proof {
        es.remove_ensures(k as int);
        assert(table.entries() =~= es.remove(k as int)) by {
            assert forall|j: int| 0 <= j < table.entries().len() implies table.entries()[j] == es.remove(k as int)[j] by {
                if j < k {
                    assert(es.remove(k as int)[j] == es[j]);
                } else {
                    assert(es.remove(k as int)[j] == es[j + 1]);
                }
            }
        }
        assert(entries_ok(table.entries())) by {
            assert forall|j: int| 0 <= j < es.remove(k as int).len() implies entry_ok(
                #[trigger] es.remove(k as int)[j],
            ) by {
                if j < k {
                    assert(es.remove(k as int)[j] == es[j]);
                } else {
                    assert(es.remove(k as int)[j] == es[j + 1]);
                }
            }
        }
    }
    table.update_physical_drive(drive);
    let ghost da = drive@;
    let ghost img = table_image(next_at(d0, table.addr), entries_at(d0, table.addr).remove(k as int), true);
    proof {
        assert(table.image() == img);
    }
    let zeros = [0u8; 512];
    let mut idx: usize = 0;
    while idx < victims.len()
        invariant
            drive.same_identity(*old(drive)),
            idx <= victims@.len(),
            drive@.len() == da.len(),
            is_free(zeros),
            forall|a: int|
                0 <= a < da.len() ==> if victims@.take(idx as int).contains(a as u32) {
                    is_free(#[trigger] drive@[a])
                } else {
                    drive@[a] == da[a]
                },
        decreases victims@.len() - idx,
    {
        let ghost dp = drive@;
        let victim = victims[idx];
        drive.write(victim, &zeros);
        proof {
            let dq = drive@;
            let done = victims@.take(idx as int);
            let more = victims@.take(idx + 1);
            assert(more =~= done.push(victim));
            assert forall|a: int| 0 <= a < da.len() implies if more.contains(a as u32) {
                is_free(#[trigger] dq[a])
            } else {
                dq[a] == da[a]
            } by {
                if done.contains(a as u32) {
                    let j = choose|j: int| 0 <= j < done.len() && done[j] == a as u32;
                    assert(more[j] == a as u32);
                }
                if a == victim {
                    assert(more[idx as int] == victim);
                }
                if more.contains(a as u32) && a != victim {
                    let j = choose|j: int| 0 <= j < more.len() && more[j] == a as u32;
                    assert(done[j] == a as u32);
                }
            }
        }
        idx += 1;
    }
    proof {
        assert(victims@.take(idx as int) =~= victims@);
    }
}

} // verus!

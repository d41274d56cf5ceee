//! Giving an entry another name in place, and what lookups find
//! afterwards.

use crate::fs::erase::{lemma_locate_hit, sole, sole_file};
use crate::fs::layout::{entries_ok, entry_ok, lemma_sector_entries_ok, lemma_table_roundtrip, name_ok, sector_at, table_image, Entry};
use crate::fs::place::lemma_live_not_free;
use crate::fs::table::{first_hit, hits, lemma_first_hit, wrote};
use crate::fs::tree::{entries_at, found, live, locate, lookup, next_at, resolve_dir};
use vstd::prelude::*;

verus! {

/// `e` under another name.
pub open spec fn named(e: Entry, name: Seq<char>) -> Entry {
    Entry { name, is_dir: e.is_dir, addr: e.addr }
}

/// `d1` is `d0` but for the entry at position `i` of the live table `t`,
/// which bears the name `name` now.
pub open spec fn retitled(d0: Seq<[u8; 512]>, d1: Seq<[u8; 512]>, t: u32, i: int, name: Seq<char>) -> bool {
    &&& d1.len() == d0.len()
    &&& live(d0, t)
    &&& live(d1, t)
    &&& 0 <= i < entries_at(d0, t).len()
    &&& next_at(d1, t) == next_at(d0, t)
    &&& entries_at(d1, t) == entries_at(d0, t).update(i, named(entries_at(d0, t)[i], name))
    &&& forall|a: u32| a != t ==> #[trigger] sector_at(d1, a) == sector_at(d0, a)
}

/// Rewriting a live table with one entry under another name that fits a
/// slot retitles the disk.
pub proof fn lemma_wrote_retitled(d0: Seq<[u8; 512]>, d1: Seq<[u8; 512]>, t: u32, i: int, name: Seq<char>)
    requires
        live(d0, t),
        0 <= i < entries_at(d0, t).len(),
        name_ok(name),
        wrote(
            d0,
            d1,
            t,
            table_image(next_at(d0, t), entries_at(d0, t).update(i, named(entries_at(d0, t)[i], name)), true),
        ),
    ensures
        retitled(d0, d1, t, i, name),
{
    let es = entries_at(d0, t);
    let changed = es.update(i, named(es[i], name));
    lemma_live_not_free(d0, t);
    lemma_sector_entries_ok(sector_at(d0, t), 8);
    assert(entry_ok(es[i]));
    assert(entries_ok(changed)) by {
        assert forall|j: int| 0 <= j < changed.len() implies entry_ok(#[trigger] changed[j]) by {
            if j != i {
                assert(changed[j] == es[j]);
            }
        }
    }
    lemma_table_roundtrip(next_at(d0, t), changed, true);
    assert forall|a: u32| a != t implies #[trigger] sector_at(d1, a) == sector_at(d0, a) by {
        if a < d0.len() {
            assert(d1[a as int] == d0[a as int]);
        }
    }
}

/// Replacing an entry by one that hits as little as it did leaves the first
/// hit where it was.
pub proof fn lemma_first_hit_update_other(es: Seq<Entry>, i: int, e: Entry, name: Seq<char>, is_dir: bool)
    requires
        0 <= i < es.len(),
        !hits(es[i], name, is_dir),
        !hits(e, name, is_dir),
    ensures
        first_hit(es.update(i, e), name, is_dir) == first_hit(es, name, is_dir),
        first_hit(es, name, is_dir) >= 0 ==> es.update(i, e)[first_hit(es, name, is_dir)] == es[first_hit(
            es,
            name,
            is_dir,
        )],
{
    lemma_first_hit(es, name, is_dir);
    lemma_first_hit(es.update(i, e), name, is_dir);
    let r = first_hit(es, name, is_dir);
    let q = first_hit(es.update(i, e), name, is_dir);
    if q >= 0 {
        assert(q != i);
        assert(es.update(i, e)[q] == es[q]);
    }
    if r >= 0 {
        assert(r != i);
        assert(es.update(i, e)[r] == es[r]);
    }
}

/// Replacing an entry by one that hits, where none did, makes it the first
/// hit.
pub proof fn lemma_first_hit_update_new(es: Seq<Entry>, i: int, e: Entry, name: Seq<char>, is_dir: bool)
    requires
        0 <= i < es.len(),
        first_hit(es, name, is_dir) < 0,
        hits(e, name, is_dir),
    ensures
        first_hit(es.update(i, e), name, is_dir) == i,
{
    lemma_first_hit(es, name, is_dir);
    lemma_first_hit(es.update(i, e), name, is_dir);
    let q = first_hit(es.update(i, e), name, is_dir);
    assert(es.update(i, e)[i] == e);
    if q >= 0 && q != i {
        assert(es.update(i, e)[q] == es[q]);
    }
}

/// Replacing the only entry that hits by one that does not leaves no hit.
pub proof fn lemma_first_hit_update_gone(es: Seq<Entry>, i: int, e: Entry, name: Seq<char>, is_dir: bool)
    requires
        0 <= i < es.len(),
        first_hit(es.remove(i), name, is_dir) < 0,
        !hits(e, name, is_dir),
    ensures
        first_hit(es.update(i, e), name, is_dir) < 0,
{
    lemma_first_hit(es.remove(i), name, is_dir);
    lemma_first_hit(es.update(i, e), name, is_dir);
    es.remove_ensures(i);
    let q = first_hit(es.update(i, e), name, is_dir);
    if q >= 0 {
        if q < i {
            assert(es.update(i, e)[q] == es[q]);
            assert(es.remove(i)[q] == es[q]);
        } else if q > i {
            assert(es.update(i, e)[q] == es[q]);
            assert(es.remove(i)[q - 1] == es[q]);
        }
    }
}

/// A lookup that neither the old nor the new name of the retitled entry
/// answers finds what it found before.
pub proof fn lemma_locate_retitled_other(
    d0: Seq<[u8; 512]>,
    d1: Seq<[u8; 512]>,
    t: u32,
    i: int,
    name: Seq<char>,
    a: u32,
    fuel: nat,
    wanted: Seq<char>,
    is_dir: bool,
)
    requires
        retitled(d0, d1, t, i, name),
        !hits(entries_at(d0, t)[i], wanted, is_dir),
        !hits(named(entries_at(d0, t)[i], name), wanted, is_dir),
    ensures
        locate(d1, a, fuel, wanted, is_dir) == locate(d0, a, fuel, wanted, is_dir),
        locate(d0, a, fuel, wanted, is_dir) is Some ==> ({
            let (u, j) = locate(d0, a, fuel, wanted, is_dir)->0;
            entries_at(d1, u)[j] == entries_at(d0, u)[j]
        }),
    decreases fuel,
{
    if fuel > 0 {
        assert(sector_at(d1, a) == sector_at(d0, a) || a == t);
        if live(d0, a) {
            if a == t {
                lemma_first_hit_update_other(
                    entries_at(d0, t),
                    i,
                    named(entries_at(d0, t)[i], name),
                    wanted,
                    is_dir,
                );
            }
            if first_hit(entries_at(d0, a), wanted, is_dir) < 0 && next_at(d0, a) != 0 {
                lemma_locate_retitled_other(d0, d1, t, i, name, next_at(d0, a), (fuel - 1) as nat, wanted, is_dir);
            }
        }
    }
}

/// A directory path resolves after a retitling as it did before, provided
/// no component of the path names the retitled entry as a directory, under
/// its old name or its new one.
pub proof fn lemma_resolve_retitled(
    d0: Seq<[u8; 512]>,
    d1: Seq<[u8; 512]>,
    t: u32,
    i: int,
    name: Seq<char>,
    root: u32,
    path: Seq<Seq<char>>,
)
    requires
        retitled(d0, d1, t, i, name),
        forall|k: int|
            0 <= k < path.len() ==> !hits(entries_at(d0, t)[i], #[trigger] path[k], true) && !hits(
                named(entries_at(d0, t)[i], name),
                path[k],
                true,
            ),
    ensures
        resolve_dir(d1, root, path) == resolve_dir(d0, root, path),
    decreases path.len(),
{
    assert(sector_at(d1, root) == sector_at(d0, root) || root == t);
    if path.len() > 0 {
        let parent = path.drop_last();
        assert forall|k: int| 0 <= k < parent.len() implies !hits(entries_at(d0, t)[i], #[trigger] parent[k], true)
            && !hits(named(entries_at(d0, t)[i], name), parent[k], true) by {
            assert(parent[k] == path[k]);
        }
        lemma_resolve_retitled(d0, d1, t, i, name, root, parent);
        if resolve_dir(d0, root, parent) is Some {
            let h = resolve_dir(d0, root, parent)->0;
            assert(!hits(entries_at(d0, t)[i], path[path.len() - 1], true));
            lemma_locate_retitled_other(d0, d1, t, i, name, h, d0.len(), path.last(), true);
            if found(d0, h, path.last(), true) is Some {
                let e = found(d0, h, path.last(), true)->0;
                assert(sector_at(d1, e.addr) == sector_at(d0, e.addr) || e.addr == t);
            }
        }
    }
}

/// Where a directory listed nothing under the new name, it lists the
/// retitled entry under it afterwards.
pub proof fn lemma_locate_retitled_new(
    d0: Seq<[u8; 512]>,
    d1: Seq<[u8; 512]>,
    t: u32,
    i: int,
    name: Seq<char>,
    a: u32,
    fuel: nat,
    old_name: Seq<char>,
    is_dir: bool,
)
    requires
        retitled(d0, d1, t, i, name),
        locate(d0, a, fuel, old_name, is_dir) == Some((t, i)),
        locate(d0, a, fuel, name, is_dir) is None,
    ensures
        locate(d1, a, fuel, name, is_dir) == Some((t, i)),
    decreases fuel,
{
    lemma_locate_hit(d0, a, fuel, old_name, is_dir);
    let es = entries_at(d0, a);
    lemma_first_hit(es, old_name, is_dir);
    lemma_first_hit(es, name, is_dir);
    assert(live(d0, a));
    if first_hit(es, old_name, is_dir) >= 0 {
        assert(a == t);
        assert(hits(named(es[i], name), name, is_dir));
        lemma_first_hit_update_new(es, i, named(es[i], name), name, is_dir);
    } else {
        assert(a != t);
        assert(sector_at(d1, a) == sector_at(d0, a));
        lemma_locate_retitled_new(d0, d1, t, i, name, next_at(d0, a), (fuel - 1) as nat, old_name, is_dir);
    }
}

/// A lookup that found nothing finds nothing after a retitling to a name
/// it does not ask for.
pub proof fn lemma_none_retitled(
    d0: Seq<[u8; 512]>,
    d1: Seq<[u8; 512]>,
    t: u32,
    i: int,
    name: Seq<char>,
    a: u32,
    fuel: nat,
    wanted: Seq<char>,
    is_dir: bool,
)
    requires
        retitled(d0, d1, t, i, name),
        !hits(named(entries_at(d0, t)[i], name), wanted, is_dir),
        locate(d0, a, fuel, wanted, is_dir) is None,
    ensures
        locate(d1, a, fuel, wanted, is_dir) is None,
    decreases fuel,
{
    if fuel > 0 {
        assert(sector_at(d1, a) == sector_at(d0, a) || a == t);
        if live(d0, a) {
            let es = entries_at(d0, a);
            lemma_first_hit(es, wanted, is_dir);
            if a == t {
                lemma_first_hit_update_other(es, i, named(es[i], name), wanted, is_dir);
            }
            if next_at(d0, a) != 0 {
                lemma_none_retitled(d0, d1, t, i, name, next_at(d0, a), (fuel - 1) as nat, wanted, is_dir);
            }
        }
    }
}

/// Where a directory listed the retitled entry as the only one under its
/// old name, it lists none under that name afterwards.
pub proof fn lemma_locate_retitled_gone(
    d0: Seq<[u8; 512]>,
    d1: Seq<[u8; 512]>,
    t: u32,
    i: int,
    name: Seq<char>,
    a: u32,
    fuel: nat,
    old_name: Seq<char>,
    is_dir: bool,
)
    requires
        retitled(d0, d1, t, i, name),
        locate(d0, a, fuel, old_name, is_dir) == Some((t, i)),
        sole(d0, a, fuel, old_name, is_dir),
        name != old_name,
    ensures
        locate(d1, a, fuel, old_name, is_dir) is None,
    decreases fuel,
{
    lemma_locate_hit(d0, a, fuel, old_name, is_dir);
    let es = entries_at(d0, a);
    lemma_first_hit(es, old_name, is_dir);
    assert(live(d0, a));
    if first_hit(es, old_name, is_dir) >= 0 {
        assert(a == t);
        lemma_first_hit_update_gone(es, i, named(es[i], name), old_name, is_dir);
        if next_at(d0, a) != 0 {
            lemma_none_retitled(d0, d1, t, i, name, next_at(d0, a), (fuel - 1) as nat, old_name, is_dir);
        }
    } else {
        assert(a != t);
        assert(sector_at(d1, a) == sector_at(d0, a));
        lemma_locate_retitled_gone(d0, d1, t, i, name, next_at(d0, a), (fuel - 1) as nat, old_name, is_dir);
    }
}

/// The path that names, in the same directory as `path`, the entry
/// `name`.
pub open spec fn beside(path: Seq<Seq<char>>, name: Seq<char>) -> Seq<Seq<char>> {
    path.drop_last().push(name)
}

/// Renaming a file keeps it: where its directory listed no file under the
/// new name, the new path names the file that the old path named, at the
/// same address. And where the directory listed the file only once, the
/// old path names no file any more.
pub proof fn lemma_file_retitled(
    d0: Seq<[u8; 512]>,
    d1: Seq<[u8; 512]>,
    t: u32,
    i: int,
    root: u32,
    path: Seq<Seq<char>>,
    name: Seq<char>,
)
    requires
        path.len() > 0,
        resolve_dir(d0, root, path.drop_last()) is Some,
        locate(d0, resolve_dir(d0, root, path.drop_last())->0, d0.len(), path.last(), false) == Some((t, i)),
        retitled(d0, d1, t, i, name),
    ensures
        lookup(d0, root, beside(path, name), false) is None ==> lookup(d1, root, beside(path, name), false) == Some(
            named(lookup(d0, root, path, false)->0, name),
        ),
        sole_file(d0, root, path) && name != path.last() ==> lookup(d1, root, path, false) is None,
{
    let parent = path.drop_last();
    let h = resolve_dir(d0, root, parent)->0;
    lemma_locate_hit(d0, h, d0.len(), path.last(), false);
    assert forall|k: int| 0 <= k < parent.len() implies !hits(entries_at(d0, t)[i], #[trigger] parent[k], true)
        && !hits(named(entries_at(d0, t)[i], name), parent[k], true) by {}
    lemma_resolve_retitled(d0, d1, t, i, name, root, parent);
    assert(beside(path, name).drop_last() =~= parent);
    assert(beside(path, name).last() == name);
    if lookup(d0, root, beside(path, name), false) is None {
        lemma_locate_retitled_new(d0, d1, t, i, name, h, d0.len(), path.last(), false);
    }
    if sole_file(d0, root, path) && name != path.last() {
        lemma_locate_retitled_gone(d0, d1, t, i, name, h, d0.len(), path.last(), false);
    }
}

} // verus!

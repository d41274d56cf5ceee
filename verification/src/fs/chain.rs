//! Table chains that end as they should, and what a directory lists once
//! an entry was placed in it.

use crate::ata::{lemma_nth_free_falls, nth_free};
use crate::fs::erase::lemma_tables_live;
use crate::fs::frame::{lemma_slot_for, slot_for, Slot};
use crate::fs::layout::{entries_ok, entry_ok, lemma_blank_sector, lemma_sector_entries_ok, lemma_table_roundtrip, sector_at, Entry};
use crate::fs::place::{lemma_live_not_free, retabled, tabled};
use crate::fs::table::{first_hit, hits, lemma_first_hit, lemma_first_hit_is};
use crate::fs::tree::{dir_entries, entries_at, live, locate, next_at, table_chain};
use vstd::prelude::*;

verus! {

/// The table chain that starts at `a` ends as it should: with a table whose
/// continuation is 0, reached before the walk gives up.
pub open spec fn ends(disk: Seq<[u8; 512]>, a: u32, fuel: nat) -> bool
    decreases fuel,
{
    fuel > 0 && live(disk, a) && (next_at(disk, a) == 0 || ends(disk, next_at(disk, a), (fuel - 1) as nat))
}

/// The position among a directory's entries at which its next entry is
/// placed: behind the entries of the first table with a free slot, or
/// behind all entries where every table is full.
pub open spec fn slot_index(disk: Seq<[u8; 512]>, a: u32, fuel: nat) -> int
    decreases fuel,
{
    if fuel == 0 || !live(disk, a) {
        0
    } else if entries_at(disk, a).len() < 8 || next_at(disk, a) == 0 || !live(disk, next_at(disk, a)) {
        entries_at(disk, a).len() as int
    } else {
        entries_at(disk, a).len() + slot_index(disk, next_at(disk, a), (fuel - 1) as nat)
    }
}

/// The place of the next entry lies within what the directory lists, or
/// right behind it.
pub proof fn lemma_slot_index(disk: Seq<[u8; 512]>, a: u32, fuel: nat)
    ensures
        0 <= slot_index(disk, a, fuel) <= dir_entries(disk, a, fuel).len(),
    decreases fuel,
{
    if fuel > 0 && live(disk, a) {
        let n = next_at(disk, a);
        if n != 0 {
            lemma_slot_index(disk, n, (fuel - 1) as nat);
            assert(dir_entries(disk, a, fuel) =~= entries_at(disk, a) + dir_entries(disk, n, (fuel - 1) as nat));
            if !live(disk, n) {
                assert(dir_entries(disk, n, (fuel - 1) as nat) =~= Seq::<Entry>::empty());
            }
        }
    }
}

/// A chain has no more tables than the walk allows.
pub proof fn lemma_chain_len(disk: Seq<[u8; 512]>, a: u32, fuel: nat)
    ensures
        table_chain(disk, a, fuel).len() <= fuel,
    decreases fuel,
{
    if fuel > 0 && live(disk, a) && next_at(disk, a) != 0 {
        lemma_chain_len(disk, next_at(disk, a), (fuel - 1) as nat);
    }
}

/// A chain that ends is no longer than the walk allows, and a longer walk
/// finds the same chain.
pub proof fn lemma_ends_any_fuel(disk: Seq<[u8; 512]>, a: u32, fuel: nat, more: nat)
    requires
        ends(disk, a, fuel),
        more >= table_chain(disk, a, fuel).len(),
    ensures
        1 <= table_chain(disk, a, fuel).len() <= fuel,
        table_chain(disk, a, more) == table_chain(disk, a, fuel),
        dir_entries(disk, a, more) == dir_entries(disk, a, fuel),
        ends(disk, a, more),
    decreases fuel,
{
    if next_at(disk, a) != 0 {
        lemma_ends_any_fuel(disk, next_at(disk, a), (fuel - 1) as nat, (more - 1) as nat);
    }
}

/// Every table of a chain that ends starts a chain that ends: the rest of
/// the chain.
pub proof fn lemma_ends_rest(disk: Seq<[u8; 512]>, a: u32, fuel: nat, j: int)
    requires
        ends(disk, a, fuel),
        0 <= j < table_chain(disk, a, fuel).len(),
    ensures
        j < fuel,
        ends(disk, table_chain(disk, a, fuel)[j], (fuel - j) as nat),
        table_chain(disk, table_chain(disk, a, fuel)[j], (fuel - j) as nat) == table_chain(disk, a, fuel).skip(j),
    decreases fuel,
{
    let chain = table_chain(disk, a, fuel);
    if j == 0 {
        assert(chain.skip(0) =~= chain);
    } else {
        let n = next_at(disk, a);
        let rest = table_chain(disk, n, (fuel - 1) as nat);
        assert(chain =~= seq![a] + rest);
        lemma_ends_rest(disk, n, (fuel - 1) as nat, j - 1);
        assert(chain[j] == rest[j - 1]);
        assert(chain.skip(j) =~= rest.skip(j - 1));
    }
}

/// A chain that ends passes no table twice.
pub proof fn lemma_ends_once(disk: Seq<[u8; 512]>, a: u32, fuel: nat, j: int)
    requires
        ends(disk, a, fuel),
        1 <= j < table_chain(disk, a, fuel).len(),
    ensures
        table_chain(disk, a, fuel)[j] != a,
{
    let chain = table_chain(disk, a, fuel);
    if chain[j] == a {
        lemma_ends_rest(disk, a, fuel, j);
        lemma_chain_len(disk, a, fuel);
        assert(chain.skip(j).len() == chain.len() - j);
        lemma_ends_any_fuel(disk, a, (fuel - j) as nat, fuel);
    }
}

/// A chain of which no table changed lists what it listed.
pub proof fn lemma_chain_kept(d0: Seq<[u8; 512]>, d1: Seq<[u8; 512]>, a: u32, fuel: nat)
    requires
        ends(d0, a, fuel),
        forall|j: int|
            0 <= j < table_chain(d0, a, fuel).len() ==> sector_at(d1, #[trigger] table_chain(d0, a, fuel)[j]) == sector_at(
                d0,
                table_chain(d0, a, fuel)[j],
            ),
    ensures
        table_chain(d1, a, fuel) == table_chain(d0, a, fuel),
        dir_entries(d1, a, fuel) == dir_entries(d0, a, fuel),
    decreases fuel,
{
    let chain = table_chain(d0, a, fuel);
    assert(chain[0] == a);
    assert(sector_at(d1, a) == sector_at(d0, a));
    let n = next_at(d0, a);
    if n != 0 {
        let rest = table_chain(d0, n, (fuel - 1) as nat);
        assert(chain =~= seq![a] + rest);
        assert forall|j: int| 0 <= j < rest.len() implies sector_at(d1, #[trigger] rest[j]) == sector_at(d0, rest[j]) by {
            assert(chain[j + 1] == rest[j]);
        }
        lemma_chain_kept(d0, d1, n, (fuel - 1) as nat);
    }
}

/// What a directory lists once an entry was placed in a table with room:
/// the same tables, and the entry at the place where the table's entries
/// ended.
pub proof fn lemma_listed_room(d0: Seq<[u8; 512]>, d1: Seq<[u8; 512]>, e: Entry, a: u32, fuel: nat, t: u32)
    requires
        slot_for(d0, a, fuel) == Slot::Room(t),
        ends(d0, a, fuel),
        d1.len() == d0.len(),
        forall|b: u32| #[trigger] live(d0, b) && b != t ==> sector_at(d1, b) == sector_at(d0, b),
        live(d1, t),
        next_at(d1, t) == next_at(d0, t),
        entries_at(d1, t) == entries_at(d0, t).push(e),
    ensures
        table_chain(d1, a, fuel) == table_chain(d0, a, fuel),
        dir_entries(d1, a, fuel) == dir_entries(d0, a, fuel).insert(slot_index(d0, a, fuel), e),
        0 <= slot_index(d0, a, fuel) <= dir_entries(d0, a, fuel).len(),
    decreases fuel,
{
    let es = entries_at(d0, a);
    let n = next_at(d0, a);
    lemma_slot_for(d0, a, fuel);
    if es.len() < 8 {
        assert(a == t);
        if n != 0 {
            let rest = table_chain(d0, n, (fuel - 1) as nat);
            assert forall|j: int| 0 <= j < rest.len() implies sector_at(d1, #[trigger] rest[j]) == sector_at(d0, rest[j]) by {
                assert(table_chain(d0, a, fuel) =~= seq![a] + rest);
                assert(table_chain(d0, a, fuel)[j + 1] == rest[j]);
                lemma_ends_once(d0, a, fuel, j + 1);
                lemma_tables_live(d0, n, (fuel - 1) as nat, j);
            }
            lemma_chain_kept(d0, d1, n, (fuel - 1) as nat);
            let r = dir_entries(d0, n, (fuel - 1) as nat);
            assert((es + r).insert(es.len() as int, e) =~= es.push(e) + r);
        } else {
            assert(es.insert(es.len() as int, e) =~= es.push(e));
        }
    } else {
        assert(a != t);
        assert(sector_at(d1, a) == sector_at(d0, a));
        lemma_listed_room(d0, d1, e, n, (fuel - 1) as nat, t);
        let r = dir_entries(d0, n, (fuel - 1) as nat);
        let k = slot_index(d0, n, (fuel - 1) as nat);
        assert((es + r).insert(es.len() + k, e) =~= es + r.insert(k, e));
    }
}

/// What a directory lists once a fresh table with one entry was linked
/// behind its last table: one table more, and the entry behind all that
/// were listed.
pub proof fn lemma_listed_grow(d0: Seq<[u8; 512]>, d1: Seq<[u8; 512]>, e: Entry, a: u32, fuel: nat, t: u32, fresh: u32)
    requires
        slot_for(d0, a, fuel) == Slot::Grow(t),
        d1.len() == d0.len(),
        forall|b: u32| #[trigger] live(d0, b) && b != t ==> sector_at(d1, b) == sector_at(d0, b),
        live(d1, t),
        entries_at(d1, t) == entries_at(d0, t),
        next_at(d1, t) == fresh,
        fresh != 0,
        live(d1, fresh),
        entries_at(d1, fresh) == seq![e],
        next_at(d1, fresh) == 0,
    ensures
        table_chain(d1, a, fuel) == table_chain(d0, a, fuel).push(fresh),
        dir_entries(d1, a, fuel) == dir_entries(d0, a, fuel).push(e),
        slot_index(d0, a, fuel) == dir_entries(d0, a, fuel).len(),
    decreases fuel,
{
    let es = entries_at(d0, a);
    let n = next_at(d0, a);
    lemma_slot_for(d0, a, fuel);
    if n == 0 || !live(d0, n) {
        assert(a == t);
        if n != 0 {
            assert(table_chain(d0, n, (fuel - 1) as nat) =~= Seq::<u32>::empty());
            assert(dir_entries(d0, n, (fuel - 1) as nat) =~= Seq::<Entry>::empty());
        }
        assert(table_chain(d1, fresh, (fuel - 1) as nat) =~= seq![fresh]);
        assert(dir_entries(d1, fresh, (fuel - 1) as nat) =~= seq![e]);
        assert(table_chain(d0, a, fuel) =~= seq![a]);
        assert(dir_entries(d0, a, fuel) =~= es);
        assert(table_chain(d1, a, fuel) =~= seq![a].push(fresh));
        assert(dir_entries(d1, a, fuel) =~= es.push(e));
    } else {
        lemma_slot_for(d0, n, (fuel - 1) as nat);
        assert(a != t);
        assert(sector_at(d1, a) == sector_at(d0, a));
        lemma_listed_grow(d0, d1, e, n, (fuel - 1) as nat, t, fresh);
        let c = table_chain(d0, n, (fuel - 1) as nat);
        let r = dir_entries(d0, n, (fuel - 1) as nat);
        assert((seq![a] + c).push(fresh) =~= seq![a] + c.push(fresh));
        assert((es + r).push(e) =~= es + r.push(e));
    }
}

/// In a directory whose chain ends as it should and that can take an
/// entry, a further table is needed exactly when every table is full:
/// when the directory lists eight entries for each of its tables.
pub proof fn lemma_grows_when_full(disk: Seq<[u8; 512]>, a: u32, fuel: nat)
    requires
        ends(disk, a, fuel),
        !(slot_for(disk, a, fuel) is Full),
    ensures
        dir_entries(disk, a, fuel).len() <= 8 * table_chain(disk, a, fuel).len(),
        slot_for(disk, a, fuel) is Grow <==> dir_entries(disk, a, fuel).len() == 8 * table_chain(disk, a, fuel).len(),
    decreases fuel,
{
    lemma_blank_sector();
    lemma_live_not_free(disk, a);
    lemma_sector_entries_ok(sector_at(disk, a), 8);
    lemma_entries_bound(disk, a, fuel);
    let n = next_at(disk, a);
    if n != 0 {
        let c = table_chain(disk, n, (fuel - 1) as nat);
        let r = dir_entries(disk, n, (fuel - 1) as nat);
        assert(table_chain(disk, a, fuel) =~= seq![a] + c);
        assert(dir_entries(disk, a, fuel) =~= entries_at(disk, a) + r);
        lemma_entries_bound(disk, n, (fuel - 1) as nat);
        if entries_at(disk, a).len() >= 8 {
            lemma_grows_when_full(disk, n, (fuel - 1) as nat);
        }
    }
}

/// A directory lists at most eight entries for each of its tables.
pub proof fn lemma_entries_bound(disk: Seq<[u8; 512]>, a: u32, fuel: nat)
    ensures
        dir_entries(disk, a, fuel).len() <= 8 * table_chain(disk, a, fuel).len(),
    decreases fuel,
{
    if fuel > 0 && live(disk, a) {
        lemma_blank_sector();
        lemma_live_not_free(disk, a);
        lemma_sector_entries_ok(sector_at(disk, a), 8);
        let n = next_at(disk, a);
        if n != 0 {
            lemma_entries_bound(disk, n, (fuel - 1) as nat);
            assert(table_chain(disk, a, fuel) =~= seq![a] + table_chain(disk, n, (fuel - 1) as nat));
            assert(dir_entries(disk, a, fuel) =~= entries_at(disk, a) + dir_entries(disk, n, (fuel - 1) as nat));
        }
    }
}

/// A directory lists nothing under a name exactly when none of the entries
/// of its tables bears it.
pub proof fn lemma_located_is_listed(disk: Seq<[u8; 512]>, a: u32, fuel: nat, name: Seq<char>, is_dir: bool)
    ensures
        locate(disk, a, fuel, name, is_dir) is None <==> forall|i: int|
            0 <= i < dir_entries(disk, a, fuel).len() ==> !hits(#[trigger] dir_entries(disk, a, fuel)[i], name, is_dir),
        locate(disk, a, fuel, name, is_dir) is Some ==> ({
            let (t, i) = locate(disk, a, fuel, name, is_dir)->0;
            let k = first_hit(dir_entries(disk, a, fuel), name, is_dir);
            0 <= k < dir_entries(disk, a, fuel).len() && dir_entries(disk, a, fuel)[k] == entries_at(disk, t)[i]
        }),
    decreases fuel,
{
    let all = dir_entries(disk, a, fuel);
    lemma_first_hit(all, name, is_dir);
    if fuel > 0 && live(disk, a) {
        let es = entries_at(disk, a);
        lemma_first_hit(es, name, is_dir);
        let n = next_at(disk, a);
        let r = if n == 0 {
            Seq::<Entry>::empty()
        } else {
            dir_entries(disk, n, (fuel - 1) as nat)
        };
        assert(all =~= es + r);
        if n != 0 {
            lemma_located_is_listed(disk, n, (fuel - 1) as nat, name, is_dir);
            lemma_first_hit(r, name, is_dir);
        }
        if first_hit(es, name, is_dir) >= 0 {
            let i = first_hit(es, name, is_dir);
            assert(all[i] == es[i]);
            assert forall|j: int| 0 <= j < i implies !hits(#[trigger] all[j], name, is_dir) by {
                assert(all[j] == es[j]);
            }
            lemma_first_hit_is(all, name, is_dir, i);
        } else {
            assert forall|j: int| 0 <= j < es.len() implies !hits(#[trigger] all[j], name, is_dir) by {
                assert(all[j] == es[j]);
            }
            if n != 0 && locate(disk, n, (fuel - 1) as nat, name, is_dir) is Some {
                let k = first_hit(r, name, is_dir);
                assert(all[es.len() + k] == r[k]);
                assert forall|j: int| 0 <= j < es.len() + k implies !hits(#[trigger] all[j], name, is_dir) by {
                    if j >= es.len() {
                        assert(all[j] == r[j - es.len()]);
                    }
                }
                lemma_first_hit_is(all, name, is_dir, es.len() + k);
            } else {
                assert forall|j: int| 0 <= j < all.len() implies !hits(#[trigger] all[j], name, is_dir) by {
                    if j >= es.len() {
                        assert(all[j] == r[j - es.len()]);
                    }
                }
            }
        }
    }
}

/// What a directory lists once the entry `e` was placed in it.
///
/// Where every table was full, the chain has one table more, the highest
/// free sector, and `e` is listed behind all earlier entries. Where a
/// table had room, the chain is as it was and `e` is listed at the place
/// where that table's entries ended; this is stated for a chain that ends
/// as it should.
pub open spec fn listed(d0: Seq<[u8; 512]>, d1: Seq<[u8; 512]>, head: u32, e: Entry) -> bool {
    match slot_for(d0, head, d0.len()) {
        Slot::Grow(_) => {
            &&& table_chain(d1, head, d1.len()) == table_chain(d0, head, d0.len()).push(nth_free(d0, 0) as u32)
            &&& dir_entries(d1, head, d1.len()) == dir_entries(d0, head, d0.len()).push(e)
        },
        _ => ends(d0, head, d0.len()) ==> {
            &&& table_chain(d1, head, d1.len()) == table_chain(d0, head, d0.len())
            &&& dir_entries(d1, head, d1.len()) == dir_entries(d0, head, d0.len()).insert(
                slot_index(d0, head, d0.len()),
                e,
            )
        },
    }
}

/// Placing an entry that fits a slot, and writing nothing else but to
/// sectors that were no live tables, makes a directory list what `listed`
/// says.
pub proof fn lemma_listed(d0: Seq<[u8; 512]>, d1: Seq<[u8; 512]>, head: u32, e: Entry)
    requires
        d1.len() == d0.len(),
        d0.len() <= u32::MAX,
        entry_ok(e),
        tabled(d0, d1, head, e),
        forall|b: u32| #[trigger] live(d0, b) && !retabled(d0, head, b as int) ==> d1[b as int] == d0[b as int],
    ensures
        listed(d0, d1, head, e),
{
    lemma_slot_for(d0, head, d0.len());
    lemma_blank_sector();
    match slot_for(d0, head, d0.len()) {
        Slot::Room(t) => {
            if ends(d0, head, d0.len()) {
                lemma_tabled_entries(d0, t, e);
                lemma_table_roundtrip(next_at(d0, t), entries_at(d0, t).push(e), true);
                assert forall|b: u32| #[trigger] live(d0, b) && b != t implies sector_at(d1, b) == sector_at(d0, b) by {
                    lemma_live_not_free(d0, b);
                    assert(d1[b as int] == d0[b as int]);
                }
                lemma_listed_room(d0, d1, e, head, d0.len(), t);
            }
        },
        Slot::Grow(t) => {
            let fresh = nth_free(d0, 0) as u32;
            lemma_sector_entries_ok(sector_at(d0, t), 8);
            lemma_table_roundtrip(fresh, entries_at(d0, t), true);
            assert(entries_ok(seq![e]));
            lemma_table_roundtrip(0, seq![e], true);
            lemma_nth_free_falls(d0, 0);
            assert(!live(d0, fresh)) by {
                if live(d0, fresh) {
                    lemma_live_not_free(d0, fresh);
                }
            }
            assert forall|b: u32| #[trigger] live(d0, b) && b != t implies sector_at(d1, b) == sector_at(d0, b) by {
                lemma_live_not_free(d0, b);
                assert(d1[b as int] == d0[b as int]);
            }
            lemma_listed_grow(d0, d1, e, head, d0.len(), t, fresh);
        },
        Slot::Full => {},
    }
}

/// The entries of a table with room, with one more that fits a slot, fit a
/// table.
pub proof fn lemma_tabled_entries(d0: Seq<[u8; 512]>, t: u32, e: Entry)
    requires
        entries_at(d0, t).len() < 8,
        entry_ok(e),
    ensures
        entries_ok(entries_at(d0, t).push(e)),
{
    let es = entries_at(d0, t);
    lemma_blank_sector();
    if t < d0.len() {
        lemma_sector_entries_ok(sector_at(d0, t), 8);
    }
    assert forall|i: int| 0 <= i < es.push(e).len() implies entry_ok(#[trigger] es.push(e)[i]) by {
        if i < es.len() {
            assert(es.push(e)[i] == es[i]);
        }
    }
}

} // verus!

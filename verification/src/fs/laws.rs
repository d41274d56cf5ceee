//! What the operations promise when taken together: statements about one
//! operation followed by another, proved from what each leaves behind.

use crate::ata::{free_count, is_free, lemma_top_free, nth_free};
use crate::fs::chain::{ends, lemma_entries_bound, lemma_grows_when_full, lemma_slot_index, listed, slot_index};
use crate::fs::layout::Entry;
use crate::fs::place::landing;
use crate::fs::erase::{dir_removed, file_removed, lemma_chain_in_range, lemma_dir_removed_dead, lemma_removed_frees, lemma_removed_spares_lookups, lemma_tables_live, sole_file};
use crate::fs::frame::{blocks_for, lemma_chain_unchanged, room, slot_for, slot_table};
use crate::fs::layout::has_magic;
use crate::fs::place::lemma_live_not_free;
use crate::fs::ops::{data_blocks, dir_added, dir_deleted, file_added, file_deleted, file_written, storable};
use crate::fs::tree::{dir_entries, file_bytes, file_sectors, live, locate, lookup, resolve_dir, table_chain};
use crate::ExitCode;
use vstd::prelude::*;

verus! {

/// A file that was written reads back as written: after a successful
/// write, the path names a file whose contents are exactly the bytes that
/// were given. This holds wherever the directory listed at most one file of
/// that name before.
pub proof fn lemma_write_then_read(
    d0: Seq<[u8; 512]>,
    d1: Seq<[u8; 512]>,
    root: u32,
    path: Seq<Seq<char>>,
    bytes: Seq<u8>,
)
    requires
        file_written(d0, d1, root, path, bytes, ExitCode::Success),
        sole_file(d0, root, path),
    ensures
        lookup(d1, root, path, false) is Some,
        file_bytes(d1, lookup(d1, root, path, false)->0.addr) == bytes,
{
}

/// A write succeeds exactly when the name can be stored, the parent
/// directory exists, and the disk has room; where no file of that name
/// was listed before, room is judged on the disk as it is.
pub proof fn lemma_write_succeeds(
    d0: Seq<[u8; 512]>,
    d1: Seq<[u8; 512]>,
    root: u32,
    path: Seq<Seq<char>>,
    bytes: Seq<u8>,
    code: ExitCode,
)
    requires
        file_written(d0, d1, root, path, bytes, code),
        lookup(d0, root, path, false) is None,
    ensures
        code == ExitCode::Success <==> {
            &&& path.len() > 0
            &&& storable(path.last())
            &&& resolve_dir(d0, root, path.drop_last()) is Some
            &&& room(d0, resolve_dir(d0, root, path.drop_last())->0, blocks_for(bytes.len() as int))
        },
{
}

/// A new file takes up no more than it needs: one directory slot, one data
/// sector for every 506 bytes begun, and one further sector only if every
/// table of the directory was full. Its chain has as many sectors as its
/// contents take up, and a single one if it is empty.
pub proof fn lemma_fewest_sectors(
    d0: Seq<[u8; 512]>,
    d1: Seq<[u8; 512]>,
    root: u32,
    path: Seq<Seq<char>>,
    bytes: Seq<u8>,
)
    requires
        file_added(d0, d1, root, path, bytes, ExitCode::Success),
        lookup(d0, root, path, false) is None,
    ensures
        resolve_dir(d0, root, path.drop_last()) is Some,
        free_count(d0, d0.len() as int) - free_count(d1, d1.len() as int) == data_blocks(bytes.len() as int) + (if slot_for(
            d0,
            resolve_dir(d0, root, path.drop_last())->0,
            d0.len(),
        ) is Grow {
            1int
        } else {
            0int
        }),
        lookup(d1, root, path, false) is Some,
        file_sectors(d1, lookup(d1, root, path, false)->0.addr).len() == if bytes.len() == 0 {
            1
        } else {
            data_blocks(bytes.len() as int)
        },
{
}

/// Deleting a file twice: where the directory listed the file only once,
/// the second deletion finds nothing and leaves the disk as the first one
/// left it.
pub proof fn lemma_delete_twice(
    d0: Seq<[u8; 512]>,
    d1: Seq<[u8; 512]>,
    d2: Seq<[u8; 512]>,
    root: u32,
    path: Seq<Seq<char>>,
    first: ExitCode,
    second: ExitCode,
)
    requires
        file_deleted(d0, d1, root, path, first),
        file_deleted(d1, d2, root, path, second),
        sole_file(d0, root, path),
    ensures
        second == ExitCode::NotFoundError,
        d2 == d1,
{
}

/// Deleting a file gives its sectors back: every sector of its data chain
/// is zeroed afterwards, which is what the allocator takes for free.
pub proof fn lemma_delete_reclaims(
    d0: Seq<[u8; 512]>,
    d1: Seq<[u8; 512]>,
    root: u32,
    path: Seq<Seq<char>>,
    j: int,
)
    requires
        file_deleted(d0, d1, root, path, ExitCode::Success),
        lookup(d0, root, path, false) is Some,
        0 <= j < file_sectors(d0, lookup(d0, root, path, false)->0.addr).len(),
    ensures
        file_sectors(d0, lookup(d0, root, path, false)->0.addr)[j] < d1.len(),
        is_free(d1[file_sectors(d0, lookup(d0, root, path, false)->0.addr)[j] as int]),
{
    lemma_removed_frees(d0, d1, root, path, j);
}

/// A directory that lists anything is not deleted: the attempt finishes
/// with `NotEmptyError` and changes no sector.
pub proof fn lemma_rmdir_spares_contents(
    d0: Seq<[u8; 512]>,
    d1: Seq<[u8; 512]>,
    root: u32,
    path: Seq<Seq<char>>,
    code: ExitCode,
)
    requires
        dir_deleted(d0, d1, root, path, code),
        lookup(d0, root, path, true) is Some,
        dir_entries(d0, lookup(d0, root, path, true)->0.addr, d0.len()).len() > 0,
    ensures
        code == ExitCode::NotEmptyError,
        d1 == d0,
{
}

/// Every table sector of a directory carries the signature, and once the
/// directory is deleted none of its former table sectors does.
pub proof fn lemma_signature_marks_tables(
    d0: Seq<[u8; 512]>,
    d1: Seq<[u8; 512]>,
    root: u32,
    path: Seq<Seq<char>>,
    j: int,
)
    requires
        dir_deleted(d0, d1, root, path, ExitCode::Success),
        lookup(d0, root, path, true) is Some,
        0 <= j < table_chain(d0, lookup(d0, root, path, true)->0.addr, d0.len()).len(),
    ensures
        has_magic(d0[table_chain(d0, lookup(d0, root, path, true)->0.addr, d0.len())[j] as int]@),
        !has_magic(d1[table_chain(d0, lookup(d0, root, path, true)->0.addr, d0.len())[j] as int]@),
{
    let head = lookup(d0, root, path, true)->0.addr;
    lemma_tables_live(d0, head, d0.len(), j);
    lemma_live_not_free(d0, table_chain(d0, head, d0.len())[j]);
    assert(dir_removed(d0, d1, root, path));
    lemma_dir_removed_dead(d0, d1, root, path, j);
}

/// Adding a file leaves the other files alone: a file of another name that
/// a path named before is named by it afterwards, with the contents it
/// had, provided none of its data sectors was free or was the table that
/// took the new entry.
pub proof fn lemma_write_spares_others(
    d0: Seq<[u8; 512]>,
    d1: Seq<[u8; 512]>,
    root: u32,
    path: Seq<Seq<char>>,
    bytes: Seq<u8>,
    other: Seq<Seq<char>>,
)
    requires
        file_added(d0, d1, root, path, bytes, ExitCode::Success),
        lookup(d0, root, other, false) is Some,
        other.last() != path.last(),
        forall|j: int|
            0 <= j < file_sectors(d0, lookup(d0, root, other, false)->0.addr).len() ==> !is_free(
                d0[(#[trigger] file_sectors(d0, lookup(d0, root, other, false)->0.addr)[j]) as int],
            ) && slot_table(slot_for(d0, resolve_dir(d0, root, path.drop_last())->0, d0.len())) != Some(
                file_sectors(d0, lookup(d0, root, other, false)->0.addr)[j],
            ),
    ensures
        lookup(d1, root, other, false) == lookup(d0, root, other, false),
        file_bytes(d1, lookup(d0, root, other, false)->0.addr) == file_bytes(d0, lookup(d0, root, other, false)->0.addr),
{
    let f = lookup(d0, root, other, false)->0;
    let secs = file_sectors(d0, f.addr);
    assert forall|j: int| 0 <= j < secs.len() implies d1[(#[trigger] secs[j]) as int] == d0[secs[j] as int] by {
        lemma_chain_in_range(d0, f.addr, d0.len(), j);
    }
    lemma_chain_unchanged(d0, d1, f.addr, d0.len());
}

/// Deleting a file leaves the other files alone: a file of another name
/// that a path named before is named by it afterwards, with the contents
/// it had, provided the deleted file's data sectors were no live tables,
/// and none of the other file's data sectors belonged to the deleted file
/// or was the table that listed it.
pub proof fn lemma_delete_spares_others(
    d0: Seq<[u8; 512]>,
    d1: Seq<[u8; 512]>,
    root: u32,
    path: Seq<Seq<char>>,
    other: Seq<Seq<char>>,
    table: u32,
    slot: int,
)
    requires
        file_removed(d0, d1, root, path),
        locate(d0, resolve_dir(d0, root, path.drop_last())->0, d0.len(), path.last(), false) == Some((table, slot)),
        forall|a: u32| file_sectors(d0, lookup(d0, root, path, false)->0.addr).contains(a) ==> !#[trigger] live(d0, a),
        lookup(d0, root, other, false) is Some,
        other.last() != path.last(),
        forall|j: int|
            0 <= j < file_sectors(d0, lookup(d0, root, other, false)->0.addr).len() ==> !file_sectors(
                d0,
                lookup(d0, root, path, false)->0.addr,
            ).contains(#[trigger] file_sectors(d0, lookup(d0, root, other, false)->0.addr)[j]) && file_sectors(
                d0,
                lookup(d0, root, other, false)->0.addr,
            )[j] != table,
    ensures
        lookup(d1, root, other, false) == lookup(d0, root, other, false),
        file_bytes(d1, lookup(d0, root, other, false)->0.addr) == file_bytes(d0, lookup(d0, root, other, false)->0.addr),
{
    lemma_removed_spares_lookups(d0, d1, root, path, other, false);
    let f = lookup(d0, root, other, false)->0;
    let secs = file_sectors(d0, f.addr);
    assert forall|j: int| 0 <= j < secs.len() implies d1[(#[trigger] secs[j]) as int] == d0[secs[j] as int] by {
        lemma_chain_in_range(d0, f.addr, d0.len(), j);
    }
    lemma_chain_unchanged(d0, d1, f.addr, d0.len());
}

/// A directory grows by a table exactly when it is full: adding a file to a
/// directory whose chain ends as it should gives the directory one table
/// more if it listed eight entries for each of its tables, and leaves the
/// number of its tables alone otherwise. Either way it lists one entry
/// more.
pub proof fn lemma_full_directory_grows(
    d0: Seq<[u8; 512]>,
    d1: Seq<[u8; 512]>,
    root: u32,
    path: Seq<Seq<char>>,
    bytes: Seq<u8>,
    parent: u32,
)
    requires
        path.len() > 0,
        file_added(d0, d1, root, path, bytes, ExitCode::Success),
        resolve_dir(d0, root, path.drop_last()) == Some(parent),
        ends(d0, parent, d0.len()),
    ensures
        table_chain(d1, parent, d1.len()).len() == table_chain(d0, parent, d0.len()).len() + (if dir_entries(
            d0,
            parent,
            d0.len(),
        ).len() == 8 * table_chain(d0, parent, d0.len()).len() {
            1int
        } else {
            0int
        }),
        dir_entries(d1, parent, d1.len()).len() == dir_entries(d0, parent, d0.len()).len() + 1,
{
    lemma_grows_when_full(d0, parent, d0.len());
    let e = Entry { name: path.last(), is_dir: false, addr: landing(d0, parent) as u32 };
    assert(listed(d0, d1, parent, e));
    lemma_entries_bound(d0, parent, d0.len());
    if !(slot_for(d0, parent, d0.len()) is Grow) {
        let es = dir_entries(d0, parent, d0.len());
        lemma_slot_index(d0, parent, d0.len());
        es.insert_ensures(slot_index(d0, parent, d0.len()), e);
    }
}

/// The same holds of adding a directory: the parent grows by a table
/// exactly when it is full.
pub proof fn lemma_full_parent_grows(d0: Seq<[u8; 512]>, d1: Seq<[u8; 512]>, root: u32, path: Seq<Seq<char>>, parent: u32)
    requires
        path.len() > 0,
        dir_added(d0, d1, root, path, ExitCode::Success),
        resolve_dir(d0, root, path.drop_last()) == Some(parent),
        ends(d0, parent, d0.len()),
    ensures
        table_chain(d1, parent, d1.len()).len() == table_chain(d0, parent, d0.len()).len() + (if dir_entries(
            d0,
            parent,
            d0.len(),
        ).len() == 8 * table_chain(d0, parent, d0.len()).len() {
            1int
        } else {
            0int
        }),
        dir_entries(d1, parent, d1.len()).len() == dir_entries(d0, parent, d0.len()).len() + 1,
{
    lemma_grows_when_full(d0, parent, d0.len());
    let e = Entry { name: path.last(), is_dir: true, addr: landing(d0, parent) as u32 };
    assert(listed(d0, d1, parent, e));
    if !(slot_for(d0, parent, d0.len()) is Grow) {
        let es = dir_entries(d0, parent, d0.len());
        lemma_slot_index(d0, parent, d0.len());
        es.insert_ensures(slot_index(d0, parent, d0.len()), e);
    }
}

/// A sector that a deletion freed is handed out again before any sector
/// below it: the allocator's next sector is no lower than any sector of
/// the deleted file.
pub proof fn lemma_freed_sector_is_on_offer(
    d0: Seq<[u8; 512]>,
    d1: Seq<[u8; 512]>,
    root: u32,
    path: Seq<Seq<char>>,
    j: int,
)
    requires
        file_removed(d0, d1, root, path),
        lookup(d0, root, path, false) is Some,
        0 <= j < file_sectors(d0, lookup(d0, root, path, false)->0.addr).len(),
        file_sectors(d0, lookup(d0, root, path, false)->0.addr)[j] >= 1,
    ensures
        nth_free(d1, 0) >= file_sectors(d0, lookup(d0, root, path, false)->0.addr)[j],
{
    lemma_removed_frees(d0, d1, root, path, j);
    lemma_top_free(d1, d1.len() as int);
}

} // verus!

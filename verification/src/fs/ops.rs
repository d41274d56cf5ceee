//! The operations that change a mounted filesystem.

use crate::ata::{free_count, is_free, lemma_free_count_update, Drive};
use crate::fs::chain::listed;
use crate::fs::erase::{data_sectors, dir_removed, drop_entry, file_removed, lemma_dir_removed_is_gone, lemma_removed_is_gone, sole_dir, sole_file, table_sectors};
use crate::fs::frame::{blocks_for, extends, lemma_locate_extends, lemma_resolve_extends, room, slot_for, slot_table};
use crate::fs::layout::{entries_ok, entry_ok, lemma_table_roundtrip, table_image, Entry};
use crate::fs::place::{dir_laid, file_laid, landing, lemma_dir_laid, lemma_file_laid, lemma_live_not_free, place_entry, store_bytes};
use crate::fs::sealed::{apart, lemma_lookup_grew, lemma_lookup_kept, lemma_resolve_kept, lemma_resolved_live, sealed};
use crate::fs::retitle::{beside, lemma_file_retitled, lemma_wrote_retitled, named};
use crate::fs::table::{hits, wrote, Dir, File, FileTableSector, FileType};
use crate::fs::tree::{dir_entries, entries_at, file_bytes, file_sectors, found, live, locate, lookup, next_at, path_of, resolve_dir};
use crate::fs::{find_in_dir, FileSystem};
use crate::ExitCode;
use vstd::prelude::*;
use vstd::string::StrSliceExecFns;

verus! {

/// A name that may be given to a new entry: at most 58 ASCII characters,
/// none of them NUL.
pub open spec fn storable(name: Seq<char>) -> bool {
    &&& name.len() <= 58
    &&& forall|i: int| 0 <= i < name.len() ==> 1 <= (#[trigger] name[i]) as int <= 127
}

/// Tells whether `name` may be given to a new entry.
pub fn is_storable(name: &str) -> (r: bool)
    ensures
        r == storable(name@),
{
    if !name.is_ascii() {
        proof {
            let i = choose|i: int| 0 <= i < name@.len() && !('\0' <= #[trigger] name@[i] <= '\u{7f}');
            assert(!(1 <= name@[i] as int <= 127));
        }
        return false;
    }
    let len = name.unicode_len();
    if len > 58 {
        return false;
    }
    let mut i: usize = 0;
    while i < len
        invariant
            i <= len,
            len == name@.len(),
            len <= 58,
            vstd::string::is_ascii(name),
            forall|j: int| 0 <= j < i ==> 1 <= (#[trigger] name@[j]) as int <= 127,
        decreases len - i,
    {
        let c = name.get_char(i);
        if c == '\0' {
            assert(!(1 <= name@[i as int] as int <= 127));
            return false;
        }
        assert('\0' <= name@[i as int] <= '\u{7f}');
        i += 1;
    }
    true
}

/// Number of data sectors that the contents of a file of `n` bytes take up:
/// one per 506 bytes begun.
pub open spec fn data_blocks(n: int) -> int {
    if n <= 0 {
        0
    } else {
        (n - 1) / 506 + 1
    }
}

/// `path` names a file on `disk` whose contents are `bytes`, stored in the
/// fewest data sectors that hold them.
pub open spec fn holds_file(disk: Seq<[u8; 512]>, root: u32, path: Seq<Seq<char>>, bytes: Seq<u8>) -> bool {
    match lookup(disk, root, path, false) {
        Some(e) => {
            &&& e.name == path.last()
            &&& !e.is_dir
            &&& file_bytes(disk, e.addr) == bytes
            &&& file_sectors(disk, e.addr).len() == blocks_for(bytes.len() as int)
        },
        None => false,
    }
}

/// What adding a file named by `path` with contents `bytes` does to a disk,
/// and the code it finishes with.
///
/// Nothing is written unless the parent directory exists and the disk has
/// room for the entry and the contents. On success:
///
/// - the disk is byte for byte what `file_laid` says: the entry goes into
///   the first table of the parent with a free slot, or into a fresh table
///   linked behind the last one; the entry points at the highest free
///   sector left; the contents are stored in runs of 506 bytes over the
///   sectors the allocator hands out one after the other; and no other
///   sector changes;
/// - the parent lists what `listed` says: one entry more, at the place
///   where the table that took it ended;
/// - the parent directory still resolves as before, and whatever a path
///   named before is still named by it, unless the path asks for a file of
///   the new name in a directory that has among its own tables the one
///   that took the new entry;
/// - if the directory listed no file of that name before, the path now
///   names a file with these contents;
/// - on a disk where no table refers to a free sector, nothing else
///   appears: a path that named nothing names nothing, or the new file;
/// - the free sectors shrink by the data sectors the contents take up, and
///   by one more if the directory needed a further table.
pub open spec fn file_added(
    d0: Seq<[u8; 512]>,
    d1: Seq<[u8; 512]>,
    root: u32,
    path: Seq<Seq<char>>,
    bytes: Seq<u8>,
    code: ExitCode,
) -> bool {
    match resolve_dir(d0, root, path.drop_last()) {
        None => code == ExitCode::NotFoundError && d1 == d0,
        Some(parent) => if !room(d0, parent, blocks_for(bytes.len() as int)) {
            code == ExitCode::Error && d1 == d0
        } else {
            &&& code == ExitCode::Success
            &&& d1.len() == d0.len()
            &&& resolve_dir(d1, root, path.drop_last()) == Some(parent)
            &&& free_count(d1, d1.len() as int) == free_count(d0, d0.len() as int) - data_blocks(bytes.len() as int) - (if slot_for(
                d0,
                parent,
                d0.len(),
            ) is Grow {
                1int
            } else {
                0int
            })
            &&& forall|a: int|
                0 <= a < d0.len() && #[trigger] d1[a] != d0[a] ==> is_free(d0[a]) || slot_table(
                    slot_for(d0, parent, d0.len()),
                ) == Some(a as u32)
            &&& lookup(d0, root, path, false) is None ==> holds_file(d1, root, path, bytes)
            &&& forall|other: Seq<Seq<char>>, is_dir: bool|
                (#[trigger] lookup(d0, root, other, is_dir)) is Some && (is_dir || other.last() != path.last() || apart(
                    d0,
                    parent,
                    resolve_dir(d0, root, other.drop_last())->0,
                )) ==> lookup(d1, root, other, is_dir) == lookup(d0, root, other, is_dir)
            &&& file_laid(
                d0,
                d1,
                parent,
                Entry { name: path.last(), is_dir: false, addr: landing(d0, parent) as u32 },
                bytes,
            )
            &&& listed(d0, d1, parent, Entry { name: path.last(), is_dir: false, addr: landing(d0, parent) as u32 })
            &&& sealed(d0) ==> forall|other: Seq<Seq<char>>, is_dir: bool|
                (#[trigger] lookup(d0, root, other, is_dir)) is None ==> lookup(d1, root, other, is_dir) is None || lookup(
                    d1,
                    root,
                    other,
                    is_dir,
                ) == Some(Entry { name: path.last(), is_dir: false, addr: landing(d0, parent) as u32 })
        },
    }
}

/// What writing a file named by `path` with contents `bytes` does to a
/// disk, and the code it finishes with.
///
/// An empty path is turned down with `ParseError`. A path whose parent
/// directory does not exist finishes with `NotFoundError`, whatever its last
/// component is. Where the parent exists, a last component that cannot be
/// stored as a name is turned down with `ParseError`. In all three cases
/// nothing is written. Otherwise a
/// file that the parent directory already lists under that name is deleted
/// first, and the new one is then added as `file_added` describes. If the
/// directory listed at most one file of that name, success means that the
/// path names a file with exactly these contents.
pub open spec fn file_written(
    d0: Seq<[u8; 512]>,
    d1: Seq<[u8; 512]>,
    root: u32,
    path: Seq<Seq<char>>,
    bytes: Seq<u8>,
    code: ExitCode,
) -> bool {
    if path.len() == 0 {
        code == ExitCode::ParseError && d1 == d0
    } else if resolve_dir(d0, root, path.drop_last()) is None {
        code == ExitCode::NotFoundError && d1 == d0
    } else if !storable(path.last()) {
        code == ExitCode::ParseError && d1 == d0
    } else {
        &&& if lookup(d0, root, path, false) is None {
            file_added(d0, d1, root, path, bytes, code)
        } else {
            exists|base: Seq<[u8; 512]>|
                #![trigger file_removed(d0, base, root, path)]
                file_removed(d0, base, root, path) && file_added(base, d1, root, path, bytes, code)
        }
        &&& code == ExitCode::Success && sole_file(d0, root, path) ==> holds_file(d1, root, path, bytes)
    }
}

/// What creating a directory named by `path` does to a disk, and the code
/// it finishes with: an empty path is turned down with `ParseError`; a
/// path whose parent directory does not exist finishes with
/// `NotFoundError`, whatever its last component is; where the parent
/// exists, a last component that cannot be stored as a name is turned down
/// with `ParseError`; otherwise the directory is added as `dir_added`
/// describes.
pub open spec fn dir_created(d0: Seq<[u8; 512]>, d1: Seq<[u8; 512]>, root: u32, path: Seq<Seq<char>>, code: ExitCode) -> bool {
    if path.len() == 0 {
        code == ExitCode::ParseError && d1 == d0
    } else if resolve_dir(d0, root, path.drop_last()) is None {
        code == ExitCode::NotFoundError && d1 == d0
    } else if !storable(path.last()) {
        code == ExitCode::ParseError && d1 == d0
    } else {
        dir_added(d0, d1, root, path, code)
    }
}

/// What deleting the file named by `path` does to a disk, and the code it
/// finishes with: `NotFoundError` and no change if the path names no file;
/// otherwise the file is removed as `file_removed` describes. If its
/// directory listed it only once, the path names no file afterwards.
pub open spec fn file_deleted(d0: Seq<[u8; 512]>, d1: Seq<[u8; 512]>, root: u32, path: Seq<Seq<char>>, code: ExitCode) -> bool {
    &&& if lookup(d0, root, path, false) is None {
        code == ExitCode::NotFoundError && d1 == d0
    } else {
        code == ExitCode::Success && file_removed(d0, d1, root, path)
    }
    &&& sole_file(d0, root, path) ==> lookup(d1, root, path, false) is None
}

/// What deleting the directory named by `path` does to a disk, and the
/// code it finishes with: `NotFoundError` if the path names no directory,
/// `NotEmptyError` if any table of the directory holds an entry, both
/// without any change; otherwise the directory is removed as `dir_removed`
/// describes. If its parent listed it only once and no directory on the
/// way down bears its name, the path names no directory afterwards.
pub open spec fn dir_deleted(d0: Seq<[u8; 512]>, d1: Seq<[u8; 512]>, root: u32, path: Seq<Seq<char>>, code: ExitCode) -> bool {
    &&& match lookup(d0, root, path, true) {
        None => code == ExitCode::NotFoundError && d1 == d0,
        Some(e) => if dir_entries(d0, e.addr, d0.len()).len() > 0 {
            code == ExitCode::NotEmptyError && d1 == d0
        } else {
            code == ExitCode::Success && dir_removed(d0, d1, root, path)
        },
    }
    &&& code == ExitCode::Success && sole_dir(d0, root, path) ==> lookup(d1, root, path, true) is None
}

/// What renaming the entry named by `path` does to a disk, and the code it
/// finishes with: `NotFoundError` if the path names neither a file nor a
/// directory, whatever the new name is; `ParseError` if the entry exists
/// and the new name cannot be stored; both without any change; otherwise
/// the entry is renamed as `renamed`
/// describes. For a file this means: where its directory listed no file
/// under the new name, the new name now leads to the file, and where the
/// directory listed the file only once, the old name leads nowhere.
pub open spec fn name_changed(
    d0: Seq<[u8; 512]>,
    d1: Seq<[u8; 512]>,
    root: u32,
    path: Seq<Seq<char>>,
    new_name: Seq<char>,
    code: ExitCode,
) -> bool {
    if lookup(d0, root, path, false) is None && lookup(d0, root, path, true) is None {
        code == ExitCode::NotFoundError && d1 == d0
    } else if !storable(new_name) {
        code == ExitCode::ParseError && d1 == d0
    } else {
        &&& code == ExitCode::Success
        &&& renamed(d0, d1, root, path, new_name)
        &&& lookup(d0, root, path, false) is Some ==> {
            &&& lookup(d0, root, beside(path, new_name), false) is None ==> lookup(
                d1,
                root,
                beside(path, new_name),
                false,
            ) == Some(named(lookup(d0, root, path, false)->0, new_name))
            &&& sole_file(d0, root, path) && new_name != path.last() ==> lookup(d1, root, path, false) is None
        }
    }
}

impl FileSystem {
    /// The mount still describes the same filesystem and its root table is
    /// the one now on `disk`.
    pub open spec fn refreshed(&self, before: FileSystem, disk: Seq<[u8; 512]>) -> bool {
        &&& self.drive_index == before.drive_index
        &&& self.entry_sector == before.entry_sector
        &&& self.entry_table.addr == self.entry_sector
        &&& self.entry_table.mirrors(disk)
    }

    /// Reads the root table again after the disk changed.
    fn refresh(&mut self, drive: &Drive)
        ensures
            final(self).refreshed(*old(self), drive@),
    {
        self.entry_table = FileTableSector::load(self.entry_sector, drive, None);
    }

    /// Adds a file without looking for one of the same name first.
    #[verifier::rlimit(40)]
    fn insert_file(&self, drive: &mut Drive, path: &Vec<String>, bytes: &Vec<u8>) -> (code: ExitCode)
        requires
            path@.len() > 0,
            storable(path@.last()@),
        ensures
            final(drive).same_identity(*old(drive)),
            file_added(old(drive)@, final(drive)@, self.entry_sector, path_of(path@), bytes@, code),
    {
        let ghost d0 = drive@;
        let ghost pv = path_of(path@);
        let ghost root = self.entry_sector;
        let n = path.len() - 1;
        proof {
            assert(pv.take(n as int) =~= pv.drop_last());
            assert(pv.last() == path@[n as int]@);
        }
        let parent = match self.resolve(drive, path, n) {
            Some(parent) => parent,
            None => {
                return ExitCode::NotFoundError;
            },
        };
        let blocks: usize = if bytes.len() == 0 {
            1
        } else {
            (bytes.len() - 1) / 506 + 1
        };
        let name = path[n].as_str();
        let first = match place_entry(drive, parent, name, false, blocks) {
            Some(first) => first,
            None => {
                return ExitCode::Error;
            },
        };
        let ghost d1 = drive@;
        let ghost e = Entry { name: name@, is_dir: false, addr: first };
        store_bytes(drive, first, bytes);
        proof {
            let d2 = drive@;
            assert forall|a: u32| #[trigger] live(d1, a) implies d2[a as int] == d1[a as int] by {
                lemma_live_not_free(d1, a);
            }
            assert(extends(d1, d2, e));
            lemma_resolve_extends(d0, d1, e, root, pv.drop_last());
            lemma_resolve_extends(d1, d2, e, root, pv.drop_last());
            if lookup(d0, root, pv, false) is None {
                let other = Entry { name: name@, is_dir: true, addr: first };
                assert(extends(d1, d2, other));
                lemma_locate_extends(d1, d2, other, parent, d1.len(), name@, false);
            }
            lemma_file_laid(d0, d1, d2, parent, e, bytes@, blocks as int);
            assert forall|other: Seq<Seq<char>>, is_dir: bool|
                (#[trigger] lookup(d0, root, other, is_dir)) is Some && (is_dir || other.last() != pv.last() || apart(
                    d0,
                    parent,
                    resolve_dir(d0, root, other.drop_last())->0,
                )) implies lookup(d2, root, other, is_dir) == lookup(d0, root, other, is_dir) by {
                lemma_lookup_kept(d0, d2, parent, e, root, other, is_dir);
            }
            if sealed(d0) {
                lemma_resolved_live(d0, root, pv.drop_last());
                assert forall|other: Seq<Seq<char>>, is_dir: bool|
                    (#[trigger] lookup(d0, root, other, is_dir)) is None implies lookup(d2, root, other, is_dir) is None
                    || lookup(d2, root, other, is_dir) == Some(e) by {
                    lemma_lookup_grew(d0, d2, parent, e, root, other, is_dir);
                }
            }
        }
        ExitCode::Success
    }

    /// Writes a file with the given contents at `path`, replacing a file
    /// that the parent directory already lists under that name.
    pub fn write_file(&mut self, drive: &mut Drive, path: &Vec<String>, bytes: Vec<u8>) -> (code: ExitCode)
        ensures
            final(drive).same_identity(*old(drive)),
            final(self).refreshed(*old(self), final(drive)@),
            file_written(old(drive)@, final(drive)@, old(self).entry_sector, path_of(path@), bytes@, code),
    {
        let ghost d0 = drive@;
        let ghost pv = path_of(path@);
        let ghost root = self.entry_sector;
        if path.len() == 0 {
            self.refresh(drive);
            return ExitCode::ParseError;
        }
        let n = path.len() - 1;
        proof {
            assert(pv.take(n as int) =~= pv.drop_last());
            assert(pv.last() == path@[n as int]@);
        }
        if self.resolve(drive, path, n).is_none() {
            self.refresh(drive);
            return ExitCode::NotFoundError;
        }
        if !is_storable(path[n].as_str()) {
            self.refresh(drive);
            return ExitCode::ParseError;
        }
        let existed = self.delete_file(drive, path);
        let ghost base = drive@;
        proof {
            if lookup(d0, root, pv, false) is Some {
                assert(file_removed(d0, base, root, pv));
                if sole_file(d0, root, pv) {
                    lemma_removed_is_gone(d0, base, root, pv);
                }
            }
        }
        let code = self.insert_file(drive, path, &bytes);
        self.refresh(drive);
        code
    }

    /// Permanently deletes the file that `path` names: zeroes every sector
    /// of its data chain and takes its entry out of its directory.
    pub fn delete_file(&mut self, drive: &mut Drive, path: &Vec<String>) -> (code: ExitCode)
        ensures
            final(drive).same_identity(*old(drive)),
            final(self).refreshed(*old(self), final(drive)@),
            file_deleted(old(drive)@, final(drive)@, old(self).entry_sector, path_of(path@), code),
    {
        let ghost d0 = drive@;
        let ghost pv = path_of(path@);
        if path.len() == 0 {
            self.refresh(drive);
            return ExitCode::NotFoundError;
        }
        let n = path.len() - 1;
        proof {
            assert(pv.take(n as int) =~= pv.drop_last());
            assert(pv.last() == path@[n as int]@);
        }
        let parent = match self.resolve(drive, path, n) {
            Some(parent) => parent,
            None => {
                self.refresh(drive);
                return ExitCode::NotFoundError;
            },
        };
        let (table, k) = match find_in_dir(drive, parent, path[n].as_str(), false) {
            Some(hit) => hit,
            None => {
                self.refresh(drive);
                return ExitCode::NotFoundError;
            },
        };
        let addr = match &table.files[k] {
            FileType::File(f) => f.entry_addr,
            FileType::Dir(d) => d.entry_addr,
        };
        assert(addr == table.entries()[k as int].addr);
        let sectors_to_remove = data_sectors(drive, addr);
        drop_entry(drive, table, k, &sectors_to_remove);
        proof {
            if sole_file(d0, self.entry_sector, pv) {
                lemma_removed_is_gone(d0, drive@, self.entry_sector, pv);
            }
        }
        self.refresh(drive);
        ExitCode::Success
    }
}

/// What creating the directory named by `path` does to a disk, and the
/// code it finishes with.
///
/// Nothing is written unless the parent directory exists and the disk has
/// room for the entry and the new head table. On success:
///
/// - the disk is byte for byte what `dir_laid` says: the entry goes into
///   the first table of the parent with a free slot, or into a fresh table
///   linked behind the last one; the entry points at the highest free
///   sector left, which becomes a live table without entries; and no other
///   sector changes;
/// - the parent lists what `listed` says: one entry more, at the place
///   where the table that took it ended;
/// - if the parent listed no directory of that name before, it now lists
///   one, whose head table is live and empty;
/// - the way down still leads to the same parent, unless a directory on
///   the way down bears the new name and has among its own tables the one
///   that took the new entry;
/// - whatever a path named before, it still names, unless the path asks
///   for a directory of the new name in a directory that has among its own
///   tables the one that took the new entry;
/// - on a disk where no table refers to a free sector, nothing else
///   appears: a path that named nothing names nothing, or the new
///   directory;
/// - the free sectors shrink by one, and by one more if the parent needed
///   a further table.
pub open spec fn dir_added(d0: Seq<[u8; 512]>, d1: Seq<[u8; 512]>, root: u32, path: Seq<Seq<char>>, code: ExitCode) -> bool {
    match resolve_dir(d0, root, path.drop_last()) {
        None => code == ExitCode::NotFoundError && d1 == d0,
        Some(parent) => if !room(d0, parent, 1) {
            code == ExitCode::Error && d1 == d0
        } else {
            &&& code == ExitCode::Success
            &&& d1.len() == d0.len()
            &&& free_count(d1, d1.len() as int) == free_count(d0, d0.len() as int) - 1 - (if slot_for(
                d0,
                parent,
                d0.len(),
            ) is Grow {
                1int
            } else {
                0int
            })
            &&& forall|a: int|
                0 <= a < d0.len() && #[trigger] d1[a] != d0[a] ==> is_free(d0[a]) || slot_table(
                    slot_for(d0, parent, d0.len()),
                ) == Some(a as u32)
            &&& lookup(d0, root, path, true) is None ==> lists_empty_dir(d1, parent, path.last())
            &&& (forall|i: int|
                0 <= i < path.len() - 1 ==> #[trigger] path[i] != path.last() || apart(
                    d0,
                    parent,
                    resolve_dir(d0, root, path.take(i))->0,
                )) ==> resolve_dir(d1, root, path.drop_last()) == Some(parent)
            &&& forall|other: Seq<Seq<char>>, is_dir: bool|
                (#[trigger] lookup(d0, root, other, is_dir)) is Some && (forall|i: int|
                    0 <= i < other.len() - 1 ==> #[trigger] other[i] != path.last() || apart(
                        d0,
                        parent,
                        resolve_dir(d0, root, other.take(i))->0,
                    )) && (!is_dir || other.last() != path.last() || apart(
                    d0,
                    parent,
                    resolve_dir(d0, root, other.drop_last())->0,
                )) ==> lookup(d1, root, other, is_dir) == lookup(d0, root, other, is_dir)
            &&& dir_laid(d0, d1, parent, Entry { name: path.last(), is_dir: true, addr: landing(d0, parent) as u32 })
            &&& listed(d0, d1, parent, Entry { name: path.last(), is_dir: true, addr: landing(d0, parent) as u32 })
            &&& sealed(d0) ==> forall|other: Seq<Seq<char>>, is_dir: bool|
                (#[trigger] lookup(d0, root, other, is_dir)) is None ==> lookup(d1, root, other, is_dir) is None || lookup(
                    d1,
                    root,
                    other,
                    is_dir,
                ) == Some(Entry { name: path.last(), is_dir: true, addr: landing(d0, parent) as u32 })
        },
    }
}

/// The directory with head table `parent` lists a directory `name` whose
/// head table is live and holds no entry.
pub open spec fn lists_empty_dir(disk: Seq<[u8; 512]>, parent: u32, name: Seq<char>) -> bool {
    match found(disk, parent, name, true) {
        Some(e) => {
            &&& e.name == name
            &&& e.is_dir
            &&& live(disk, e.addr)
            &&& dir_entries(disk, e.addr, disk.len()) == Seq::<Entry>::empty()
        },
        None => false,
    }
}

/// `path` names a directory on `disk` that lists nothing.
pub open spec fn holds_empty_dir(disk: Seq<[u8; 512]>, root: u32, path: Seq<Seq<char>>) -> bool {
    match lookup(disk, root, path, true) {
        Some(e) => {
            &&& e.name == path.last()
            &&& e.is_dir
            &&& resolve_dir(disk, root, path) == Some(e.addr)
            &&& dir_entries(disk, e.addr, disk.len()) == Seq::<Entry>::empty()
        },
        None => false,
    }
}

/// A directory that was created where none of its name was listed, and
/// whose name no directory on the way down bears, is then found by its
/// path, and it is empty.
pub proof fn lemma_dir_added_resolves(d0: Seq<[u8; 512]>, d1: Seq<[u8; 512]>, root: u32, path: Seq<Seq<char>>)
    requires
        path.len() > 0,
        dir_added(d0, d1, root, path, ExitCode::Success),
        lookup(d0, root, path, true) is None,
        forall|i: int| 0 <= i < path.len() - 1 ==> #[trigger] path[i] != path.last(),
    ensures
        holds_empty_dir(d1, root, path),
{
}

/// What renaming the entry at `path` does to a disk: the table that lists
/// the entry is rewritten with the entry's name replaced, and nothing else
/// changes. A file of the path's name is renamed if there is one, else a
/// directory.
pub open spec fn renamed(d0: Seq<[u8; 512]>, d1: Seq<[u8; 512]>, root: u32, path: Seq<Seq<char>>, new_name: Seq<char>) -> bool {
    &&& path.len() > 0
    &&& resolve_dir(d0, root, path.drop_last()) is Some
    &&& ({
        let h = resolve_dir(d0, root, path.drop_last())->0;
        let spot = if locate(d0, h, d0.len(), path.last(), false) is Some {
            locate(d0, h, d0.len(), path.last(), false)
        } else {
            locate(d0, h, d0.len(), path.last(), true)
        };
        &&& spot is Some
        &&& ({
            let (t, i) = spot->0;
            let old_entry = entries_at(d0, t)[i];
            wrote(
                d0,
                d1,
                t,
                table_image(
                    next_at(d0, t),
                    entries_at(d0, t).update(i, Entry { name: new_name, is_dir: old_entry.is_dir, addr: old_entry.addr }),
                    true,
                ),
            )
        })
    })
}

impl FileSystem {
    /// Creates an empty directory at `path`. A directory of the same name
    /// that the parent already lists is not looked for.
    #[verifier::rlimit(40)]
    pub fn create_dir(&mut self, drive: &mut Drive, path: &Vec<String>) -> (code: ExitCode)
        ensures
            final(drive).same_identity(*old(drive)),
            final(self).refreshed(*old(self), final(drive)@),
            dir_created(old(drive)@, final(drive)@, old(self).entry_sector, path_of(path@), code),
    {
        let ghost d0 = drive@;
        let ghost pv = path_of(path@);
        let ghost root = self.entry_sector;
        if path.len() == 0 {
            self.refresh(drive);
            return ExitCode::ParseError;
        }
        let n = path.len() - 1;
        let name = path[n].as_str();
        proof {
            assert(pv.take(n as int) =~= pv.drop_last());
            assert(pv.last() == path@[n as int]@);
        }
        let parent = match self.resolve(drive, path, n) {
            Some(parent) => parent,
            None => {
                self.refresh(drive);
                return ExitCode::NotFoundError;
            },
        };
        if !is_storable(name) {
            self.refresh(drive);
            return ExitCode::ParseError;
        }
        let new_file_sector = match place_entry(drive, parent, name, true, 1) {
            Some(sector) => sector,
            None => {
                self.refresh(drive);
                return ExitCode::Error;
            },
        };
        let ghost d1 = drive@;
        let ghost e = Entry { name: name@, is_dir: true, addr: new_file_sector };
        let head = FileTableSector::new(new_file_sector, drive, Some(name.to_owned()));
        proof {
            let d2 = drive@;
            let len = d0.len() as int;
            lemma_table_roundtrip(0, Seq::<Entry>::empty(), true);
            assert(head.entries() =~= Seq::<Entry>::empty());
            assert(d2 =~= d1.update(new_file_sector as int, d2[new_file_sector as int]));
            lemma_free_count_update(d1, len, new_file_sector as int, d2[new_file_sector as int]);
            assert(d2[new_file_sector as int]@[508] == 0x50);
            assert forall|a: u32| #[trigger] live(d1, a) implies d2[a as int] == d1[a as int] by {
                lemma_live_not_free(d1, a);
            }
            let other = Entry { name: name@, is_dir: false, addr: new_file_sector };
            assert(extends(d1, d2, other));
            if lookup(d0, root, pv, true) is None {
                lemma_locate_extends(d1, d2, other, parent, d1.len(), name@, true);
                assert(live(d2, new_file_sector));
                assert(dir_entries(d2, new_file_sector, d2.len()) =~= Seq::<Entry>::empty());
            }
            lemma_dir_laid(d0, d1, d2, parent, e, 1);
            if forall|i: int|
                0 <= i < pv.len() - 1 ==> #[trigger] pv[i] != pv.last() || apart(
                    d0,
                    parent,
                    resolve_dir(d0, root, pv.take(i))->0,
                ) {
                assert forall|i: int| 0 <= i < pv.drop_last().len() implies !hits(e, #[trigger] pv.drop_last()[i], true)
                    || apart(d0, parent, resolve_dir(d0, root, pv.drop_last().take(i))->0) by {
                    assert(pv.drop_last()[i] == pv[i]);
                    assert(pv.drop_last().take(i) =~= pv.take(i));
                }
                lemma_resolve_kept(d0, d2, parent, e, root, pv.drop_last());
            }
            if sealed(d0) {
                lemma_resolved_live(d0, root, pv.drop_last());
                assert forall|q: Seq<Seq<char>>, is_dir: bool|
                    (#[trigger] lookup(d0, root, q, is_dir)) is None implies lookup(d2, root, q, is_dir) is None || lookup(
                    d2,
                    root,
                    q,
                    is_dir,
                ) == Some(e) by {
                    lemma_lookup_grew(d0, d2, parent, e, root, q, is_dir);
                }
            }
            assert forall|q: Seq<Seq<char>>, is_dir: bool|
                (#[trigger] lookup(d0, root, q, is_dir)) is Some && (forall|i: int|
                    0 <= i < q.len() - 1 ==> #[trigger] q[i] != pv.last() || apart(
                        d0,
                        parent,
                        resolve_dir(d0, root, q.take(i))->0,
                    )) && (!is_dir || q.last() != pv.last() || apart(d0, parent, resolve_dir(d0, root, q.drop_last())->0))
                implies lookup(d2, root, q, is_dir) == lookup(d0, root, q, is_dir) by {
                assert forall|i: int| 0 <= i < q.len() - 1 implies !hits(e, #[trigger] q[i], true) || apart(
                    d0,
                    parent,
                    resolve_dir(d0, root, q.take(i))->0,
                ) by {}
                lemma_lookup_kept(d0, d2, parent, e, root, q, is_dir);
            }
        }
        self.refresh(drive);
        ExitCode::Success
    }

    /// Permanently deletes the directory that `path` names, provided it
    /// lists nothing: zeroes every sector of its table chain and takes its
    /// entry out of its parent.
    pub fn delete_dir(&mut self, drive: &mut Drive, path: &Vec<String>) -> (code: ExitCode)
        ensures
            final(drive).same_identity(*old(drive)),
            final(self).refreshed(*old(self), final(drive)@),
            dir_deleted(old(drive)@, final(drive)@, old(self).entry_sector, path_of(path@), code),
    {
        let ghost d0 = drive@;
        let ghost pv = path_of(path@);
        if path.len() == 0 {
            self.refresh(drive);
            return ExitCode::NotFoundError;
        }
        let n = path.len() - 1;
        proof {
            assert(pv.take(n as int) =~= pv.drop_last());
            assert(pv.last() == path@[n as int]@);
        }
        let parent = match self.resolve(drive, path, n) {
            Some(parent) => parent,
            None => {
                self.refresh(drive);
                return ExitCode::NotFoundError;
            },
        };
        let (table, k) = match find_in_dir(drive, parent, path[n].as_str(), true) {
            Some(hit) => hit,
            None => {
                self.refresh(drive);
                return ExitCode::NotFoundError;
            },
        };
        let addr = match &table.files[k] {
            FileType::File(f) => f.entry_addr,
            FileType::Dir(d) => d.entry_addr,
        };
        assert(addr == table.entries()[k as int].addr);
        let (sectors_to_remove, empty) = table_sectors(drive, addr);
        if !empty {
            self.refresh(drive);
            return ExitCode::NotEmptyError;
        }
        drop_entry(drive, table, k, &sectors_to_remove);
        proof {
            if sole_dir(d0, self.entry_sector, pv) {
                lemma_dir_removed_is_gone(d0, drive@, self.entry_sector, pv);
            }
        }
        self.refresh(drive);
        ExitCode::Success
    }

    /// Gives the entry at `path` a new name, in place. Whether the
    /// directory already lists the new name is not looked at.
    #[verifier::rlimit(40)]
    pub fn rename(&mut self, drive: &mut Drive, path: &Vec<String>, new_name: &str) -> (code: ExitCode)
        ensures
            final(drive).same_identity(*old(drive)),
            final(self).refreshed(*old(self), final(drive)@),
            name_changed(old(drive)@, final(drive)@, old(self).entry_sector, path_of(path@), new_name@, code),
    {
        let ghost d0 = drive@;
        let ghost pv = path_of(path@);
        if path.len() == 0 {
            self.refresh(drive);
            return ExitCode::NotFoundError;
        }
        let n = path.len() - 1;
        proof {
            assert(pv.take(n as int) =~= pv.drop_last());
            assert(pv.last() == path@[n as int]@);
        }
        let parent = match self.resolve(drive, path, n) {
            Some(parent) => parent,
            None => {
                self.refresh(drive);
                return ExitCode::NotFoundError;
            },
        };
        let hit = match find_in_dir(drive, parent, path[n].as_str(), false) {
            Some(hit) => Some(hit),
            None => find_in_dir(drive, parent, path[n].as_str(), true),
        };
        let (mut table, k) = match hit {
            Some(hit) => hit,
            None => {
                self.refresh(drive);
                return ExitCode::NotFoundError;
            },
        };
        if !is_storable(new_name) {
            self.refresh(drive);
            return ExitCode::ParseError;
        }
        let ghost es = table.entries();
        let replacement = match &table.files[k] {
            FileType::File(f) => FileType::File(
                File { name: new_name.to_owned(), drive_index: f.drive_index, entry_addr: f.entry_addr },
            ),
            FileType::Dir(d) => FileType::Dir(
                Dir { name: new_name.to_owned(), drive_index: d.drive_index, entry_addr: d.entry_addr },
            ),
        };
        table.files[k] = replacement;
        proof {
            let new_entry = Entry { name: new_name@, is_dir: es[k as int].is_dir, addr: es[k as int].addr };
            assert(table.entries() =~= es.update(k as int, new_entry));
            assert(entry_ok(es[k as int]));
            assert(entries_ok(table.entries())) by {
                assert forall|j: int| 0 <= j < table.entries().len() implies entry_ok(#[trigger] table.entries()[j]) by {
                    if j != k {
                        assert(table.entries()[j] == es[j]);
                        assert(entry_ok(es[j]));
                    }
                }
            }
        }
        table.update_physical_drive(drive);
        proof {
            if lookup(d0, self.entry_sector, pv, false) is Some {
                assert(named(es[k as int], new_name@) == Entry {
                    name: new_name@,
                    is_dir: es[k as int].is_dir,
                    addr: es[k as int].addr,
                });
                lemma_wrote_retitled(d0, drive@, table.addr, k as int, new_name@);
                lemma_file_retitled(d0, drive@, table.addr, k as int, self.entry_sector, pv, new_name@);
            }
        }
        self.refresh(drive);
        ExitCode::Success
    }
}

} // verus!

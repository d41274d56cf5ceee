//! The POGO filesystem: a directory tree kept in linked directory-table
//! sectors, with file contents in linked data sectors.

pub mod chain;
pub mod data;
pub mod erase;
pub mod frame;
pub mod laws;
pub mod layout;
pub mod ops;
pub mod place;
pub mod retitle;
pub mod sealed;
pub mod table;
pub mod tree;

pub use crate::fs::data::DataSector;
pub use crate::fs::table::{Dir, File, FileTableSector, FileType};

use crate::ata::Drive;
use crate::fs::layout::{lemma_table_roundtrip, payload, sector_at, table_image, Entry};
use crate::fs::table::{first_hit, hits, lemma_first_hit, wrote};
use crate::fs::tree::{chain_bytes, dir_entries, entries_at, file_bytes, found, label, live, locate, lookup, next_at, path_of, resolve_dir};
use vstd::prelude::*;

verus! {

/// A mounted filesystem: which drive it is on, where its root table lies,
/// and the root table as last read.
pub struct FileSystem {
    pub drive_index: u8,
    pub entry_sector: u32,
    pub entry_table: FileTableSector,
}

/// Finds where the directory with head table `head` first lists an entry of
/// the given kind and name, and returns that table with the position in it.
pub fn find_in_dir(drive: &Drive, head: u32, name: &str, is_dir: bool) -> (r: Option<(FileTableSector, usize)>)
    ensures
        match r {
            Some((t, i)) => {
                &&& locate(drive@, head, drive@.len(), name@, is_dir) == Some((t.addr, i as int))
                &&& t.entries() == entries_at(drive@, t.addr)
                &&& t.link() == next_at(drive@, t.addr)
                &&& !t.is_deleted
                &&& live(drive@, t.addr)
                &&& t.wf()
                &&& t.mirrors(drive@)
                &&& i < t.files@.len()
                &&& i as int == first_hit(t.entries(), name@, is_dir)
                &&& hits(t.entries()[i as int], name@, is_dir)
                &&& t.drive_index == drive.drive_index as usize
                &&& forall|k: int| 0 <= k < t.files@.len() ==> (#[trigger] t.files@[k]).drive_index() == t.drive_index
            },
            None => locate(drive@, head, drive@.len(), name@, is_dir) is None,
        },
{
    let mut fuel: u32 = drive.sectors;
    let mut cur: u32 = head;
    while fuel > 0
        invariant
            fuel <= drive.sectors,
            locate(drive@, head, drive@.len(), name@, is_dir) == locate(drive@, cur, fuel as nat, name@, is_dir),
        decreases fuel,
    {
        let t = FileTableSector::load(cur, drive, None);
        if t.is_deleted {
            return None;
        }
        match t.position(name, is_dir) {
            Some(i) => {
                proof {
                    lemma_first_hit(t.entries(), name@, is_dir);
                }
                return Some((t, i));
            },
            None => {},
        }
        match t.continuation_addr {
            Some(next) => {
                cur = next;
            },
            None => {
                return None;
            },
        }
        fuel -= 1;
    }
    None
}

impl FileSystem {
    /// Walks the first `n` components of `path` down from the root and
    /// returns the head table of the directory they lead to.
    pub fn resolve(&self, drive: &Drive, path: &Vec<String>, n: usize) -> (r: Option<u32>)
        requires
            n <= path@.len(),
        ensures
            r == resolve_dir(drive@, self.entry_sector, path_of(path@).take(n as int)),
    {
        let ghost pv = path_of(path@);
        let root = FileTableSector::load(self.entry_sector, drive, None);
        if root.is_deleted {
            proof {
                lemma_resolve_stuck(drive@, self.entry_sector, pv, 0, n as int);
            }
            return None;
        }
        let mut cur: u32 = self.entry_sector;
        let mut i: usize = 0;
        while i < n
            invariant
                i <= n <= path@.len(),
                pv == path_of(path@),
                resolve_dir(drive@, self.entry_sector, pv.take(i as int)) == Some(cur),
            decreases n - i,
        {
            proof {
                assert(pv.take(i + 1).drop_last() =~= pv.take(i as int));
                assert(pv.take(i + 1).last() == path@[i as int]@);
            }
            match find_in_dir(drive, cur, path[i].as_str(), true) {
                Some((t, k)) => {
                    let addr = match &t.files[k] {
                        FileType::Dir(d) => d.entry_addr,
                        FileType::File(f) => f.entry_addr,
                    };
                    assert(addr == t.entries()[k as int].addr);
                    let head = FileTableSector::load(addr, drive, None);
                    if head.is_deleted {
                        proof {
                            lemma_resolve_stuck(drive@, self.entry_sector, pv, i + 1, n as int);
                        }
                        return None;
                    }
                    cur = addr;
                },
                None => {
                    proof {
                        lemma_resolve_stuck(drive@, self.entry_sector, pv, i + 1, n as int);
                    }
                    return None;
                },
            }
            i += 1;
        }
        Some(cur)
    }

    /// The file that `path` names, if there is one.
    pub fn get_file(&self, drive: &Drive, path: &Vec<String>) -> (r: Option<File>)
        ensures
            match r {
                Some(f) => {
                    &&& lookup(drive@, self.entry_sector, path_of(path@), false) == Some(
                        Entry { name: f.name@, is_dir: false, addr: f.entry_addr },
                    )
                    &&& f.drive_index == drive.drive_index as usize
                },
                None => lookup(drive@, self.entry_sector, path_of(path@), false) is None,
            },
    {
        if path.len() == 0 {
            return None;
        }
        let n = path.len() - 1;
        proof {
            let pv = path_of(path@);
            assert(pv.take(n as int) =~= pv.drop_last());
            assert(pv.last() == path@[n as int]@);
        }
        match self.resolve(drive, path, n) {
            None => None,
            Some(h) => match find_in_dir(drive, h, path[n].as_str(), false) {
                Some((t, k)) => {
                    proof {
                        lemma_first_hit(t.entries(), path@[n as int]@, false);
                    }
                    match &t.files[k] {
                        FileType::File(f) => Some(File { name: f.name.clone(), drive_index: f.drive_index, entry_addr: f.entry_addr }),
                        FileType::Dir(_) => None,
                    }
                },
                None => None,
            },
        }
    }

    /// The directory that `path` names, if its parent lists one.
    pub fn get_dir(&self, drive: &Drive, path: &Vec<String>) -> (r: Option<Dir>)
        ensures
            match r {
                Some(d) => {
                    &&& lookup(drive@, self.entry_sector, path_of(path@), true) == Some(
                        Entry { name: d.name@, is_dir: true, addr: d.entry_addr },
                    )
                    &&& d.drive_index == drive.drive_index as usize
                },
                None => lookup(drive@, self.entry_sector, path_of(path@), true) is None,
            },
    {
        if path.len() == 0 {
            return None;
        }
        let n = path.len() - 1;
        proof {
            let pv = path_of(path@);
            assert(pv.take(n as int) =~= pv.drop_last());
            assert(pv.last() == path@[n as int]@);
        }
        match self.resolve(drive, path, n) {
            None => None,
            Some(h) => match find_in_dir(drive, h, path[n].as_str(), true) {
                Some((t, k)) => {
                    proof {
                        lemma_first_hit(t.entries(), path@[n as int]@, true);
                    }
                    match &t.files[k] {
                        FileType::Dir(d) => Some(Dir { name: d.name.clone(), drive_index: d.drive_index, entry_addr: d.entry_addr }),
                        FileType::File(_) => None,
                    }
                },
                None => None,
            },
        }
    }
}

/// The names a listing shows for a run of entries.
pub open spec fn listing(es: Seq<Entry>) -> Seq<Seq<char>> {
    Seq::new(es.len(), |i: int| label(es[i]))
}

impl FileSystem {
    /// The names listed in the directory that `path` names, table by table
    /// in link order, directories with a trailing `/`.
    pub fn list_files(&self, drive: &Drive, path: &Vec<String>) -> (r: Option<Vec<String>>)
        ensures
            match r {
                Some(names) => {
                    &&& resolve_dir(drive@, self.entry_sector, path_of(path@)) is Some
                    &&& path_of(names@) == listing(
                        dir_entries(drive@, resolve_dir(drive@, self.entry_sector, path_of(path@))->0, drive@.len()),
                    )
                },
                None => resolve_dir(drive@, self.entry_sector, path_of(path@)) is None,
            },
    {
        proof {
            assert(path_of(path@).take(path@.len() as int) =~= path_of(path@));
        }
        let head = match self.resolve(drive, path, path.len()) {
            Some(h) => h,
            None => {
                return None;
            },
        };
        let ghost all = dir_entries(drive@, head, drive@.len());
        let mut result: Vec<String> = Vec::new();
        let mut fuel: u32 = drive.sectors;
        let mut cur: u32 = head;
        proof {
            assert(path_of(result@) + listing(all) =~= listing(all));
        }
        while fuel > 0
            invariant_except_break
                path_of(result@) + listing(dir_entries(drive@, cur, fuel as nat)) == listing(all),
            invariant
                fuel <= drive.sectors,
                all == dir_entries(drive@, head, drive@.len()),
            ensures
                path_of(result@) == listing(all),
            decreases fuel,
        {
            let table = FileTableSector::load(cur, drive, None);
            if table.is_deleted {
                proof {
                    assert(path_of(result@) + listing(Seq::<Entry>::empty()) =~= path_of(result@));
                }
                break;
            }
            let ghost before = result@;
            let ghost rest = if next_at(drive@, cur) == 0 {
                Seq::<Entry>::empty()
            } else {
                dir_entries(drive@, next_at(drive@, cur), (fuel - 1) as nat)
            };
            proof {
                assert(dir_entries(drive@, cur, fuel as nat) =~= table.entries() + rest);
            }
            let mut k: usize = 0;
            while k < table.files.len()
                invariant
                    k <= table.files@.len(),
                    path_of(result@) == path_of(before) + listing(table.entries().take(k as int)),
                decreases table.files@.len() - k,
            {
                let ghost prev = result@;
                let shown = match &table.files[k] {
                    FileType::File(f) => f.name.clone(),
                    FileType::Dir(d) => {
                        let mut n = d.name.clone();
                        n.push('/');
                        n
                    },
                };
                assert(shown@ == label(table.entries()[k as int]));
                result.push(shown);
                proof {
                    assert(table.entries().take(k + 1) =~= table.entries().take(k as int).push(table.entries()[k as int]));
                    assert(path_of(result@) =~= path_of(prev).push(shown@));
                    assert(listing(table.entries().take(k + 1)) =~= listing(table.entries().take(k as int)).push(
                        shown@,
                    ));
                    assert(path_of(result@) =~= path_of(before) + listing(table.entries().take(k + 1)));
                }
                k += 1;
            }
            proof {
                assert(table.entries().take(k as int) =~= table.entries());
                assert(listing(table.entries() + rest) =~= listing(table.entries()) + listing(rest));
                assert(path_of(result@) + listing(rest) =~= listing(all));
            }
            match table.continuation_addr {
                Some(next) => {
                    cur = next;
                },
                None => {
                    proof {
                        assert(path_of(result@) + listing(rest) =~= path_of(result@));
                    }
                    break;
                },
            }
            fuel -= 1;
        }
        proof {
            if fuel == 0 {
                assert(path_of(result@) + listing(Seq::<Entry>::empty()) =~= path_of(result@));
            }
        }
        Some(result)
    }
}

impl File {
    /// Reads the whole file: the payloads of its data chain, in link order.
    pub fn read(&self, drive: &Drive) -> (out: Vec<u8>)
        ensures
            out@ == file_bytes(drive@, self.entry_addr),
    {
        let mut output_bytes: Vec<u8> = Vec::new();
        let mut fuel: u32 = drive.sectors;
        let mut current_addr: u32 = self.entry_addr;
        proof {
            assert(output_bytes@ + file_bytes(drive@, self.entry_addr) =~= file_bytes(drive@, self.entry_addr));
        }
        while fuel > 0 && current_addr < drive.sectors
            invariant_except_break
                output_bytes@ + chain_bytes(drive@, current_addr, fuel as nat) == file_bytes(drive@, self.entry_addr),
            invariant
                fuel <= drive.sectors,
            ensures
                output_bytes@ == file_bytes(drive@, self.entry_addr),
            decreases fuel,
        {
            let current_sector = DataSector::load(current_addr, drive);
            let ghost s = sector_at(drive@, current_addr);
            let ghost before = output_bytes@;
            let ghost rest = if next_at(drive@, current_addr) == 0 {
                Seq::<u8>::empty()
            } else {
                chain_bytes(drive@, next_at(drive@, current_addr), (fuel - 1) as nat)
            };
            proof {
                assert(chain_bytes(drive@, current_addr, fuel as nat) =~= payload(s) + rest);
            }
            let size: usize = if current_sector.size <= 506 {
                current_sector.size as usize
            } else {
                506
            };
            let mut i: usize = 0;
            while i < size
                invariant
                    i <= size <= 506,
                    output_bytes@ == before + current_sector.data@.take(i as int),
                decreases size - i,
            {
                output_bytes.push(current_sector.data[i]);
                proof {
                    assert(current_sector.data@.take(i + 1) =~= current_sector.data@.take(i as int).push(
                        current_sector.data@[i as int],
                    ));
                    assert(output_bytes@ =~= before + current_sector.data@.take(i + 1));
                }
                i += 1;
            }
            proof {
                assert(current_sector.data@.take(size as int) =~= payload(s));
                assert(output_bytes@ + rest =~= before + (payload(s) + rest));
            }
            match current_sector.continuation_addr {
                Some(next_sector) => {
                    current_addr = next_sector;
                },
                None => {
                    proof {
                        assert(output_bytes@ + rest =~= output_bytes@);
                    }
                    break;
                },
            }
            fuel -= 1;
        }
        proof {
            assert(output_bytes@ + Seq::<u8>::empty() =~= output_bytes@);
        }
        output_bytes
    }
}

/// Whether `drive` carries a filesystem: its last sector is a live
/// directory table.
pub open spec fn has_fs(drive: Drive) -> bool {
    drive.sectors >= 1 && live(drive@, (drive.sectors - 1) as u32)
}

/// Index of the first drive from position `k` on that carries a
/// filesystem, or -1.
pub open spec fn first_fs_from(drives: Seq<Drive>, k: int) -> int
    decreases drives.len() - k,
{
    if k < 0 || k >= drives.len() {
        -1
    } else if has_fs(drives[k]) {
        k
    } else {
        first_fs_from(drives, k + 1)
    }
}

impl FileSystem {
    /// The mount is that of the filesystem on `drive`: rooted in the
    /// drive's last sector, with the root table as the drive holds it.
    pub open spec fn mounted_on(&self, drive: Drive) -> bool {
        &&& drive.sectors >= 1
        &&& self.drive_index == drive.drive_index
        &&& self.entry_sector == drive.sectors - 1
        &&& self.entry_table.addr == self.entry_sector
        &&& self.entry_table.mirrors(drive@)
    }
}

/// Looks for a filesystem on the drives, in order, and mounts the first
/// one found.
pub fn detect_fs(drives: &Vec<Drive>) -> (r: Option<FileSystem>)
    ensures
        match r {
            Some(fs) => 0 <= first_fs_from(drives@, 0) < drives@.len() && has_fs(drives@[first_fs_from(drives@, 0)])
                && fs.mounted_on(drives@[first_fs_from(drives@, 0)]),
            None => first_fs_from(drives@, 0) == -1,
        },
{
    let mut i: usize = 0;
    while i < drives.len()
        invariant
            i <= drives@.len(),
            first_fs_from(drives@, 0) == first_fs_from(drives@, i as int),
        decreases drives@.len() - i,
    {
        let drive = &drives[i];
        if drive.sectors >= 1 {
            let entry_sector = drive.sectors - 1;
            let entry_table = FileTableSector::load(entry_sector, drive, None);
            if !entry_table.is_deleted {
                return Some(FileSystem { drive_index: drive.drive_index, entry_sector, entry_table });
            }
        }
        i += 1;
    }
    None
}

/// Formats `drive`: writes an empty directory table to its last sector and
/// mounts it as the root. A drive without sectors cannot be formatted.
pub fn create_fs(drive: &mut Drive) -> (r: Option<FileSystem>)
    ensures
        final(drive).same_identity(*old(drive)),
        match r {
            Some(fs) => {
                &&& old(drive).sectors >= 1
                &&& fs.mounted_on(*final(drive))
                &&& has_fs(*final(drive))
                &&& wrote(
                    old(drive)@,
                    final(drive)@,
                    fs.entry_sector,
                    table_image(0, Seq::<Entry>::empty(), true),
                )
                &&& dir_entries(final(drive)@, fs.entry_sector, final(drive)@.len()) == Seq::<Entry>::empty()
                &&& resolve_dir(final(drive)@, fs.entry_sector, Seq::<Seq<char>>::empty()) == Some(fs.entry_sector)
            },
            None => old(drive).sectors == 0 && final(drive)@ == old(drive)@,
        },
{
    if drive.sectors == 0 {
        return None;
    }
    let entry_sector = drive.sectors - 1;
    let written = FileTableSector::new(entry_sector, drive, None);
    proof {
        lemma_table_roundtrip(0, Seq::<Entry>::empty(), true);
        assert(written.entries() =~= Seq::<Entry>::empty());
        assert(dir_entries(drive@, entry_sector, drive@.len()) =~= Seq::<Entry>::empty());
    }
    let entry_table = FileTableSector::load(entry_sector, drive, None);
    Some(FileSystem { drive_index: drive.drive_index, entry_sector, entry_table })
}

/// Tells whether a filesystem is mounted.
pub fn is_mounted(filesystem: &Option<FileSystem>) -> (r: bool)
    ensures
        r == filesystem.is_some(),
{
    filesystem.is_some()
}

/// Once a prefix of a path fails to resolve, every longer prefix fails too.
pub proof fn lemma_resolve_stuck(disk: Seq<[u8; 512]>, root: u32, path: Seq<Seq<char>>, k: int, n: int)
    requires
        0 <= k <= n <= path.len(),
        resolve_dir(disk, root, path.take(k)) is None,
    ensures
        resolve_dir(disk, root, path.take(n)) is None,
    decreases n - k,
{
    if k < n {
        assert(path.take(n).drop_last() =~= path.take(n - 1));
        lemma_resolve_stuck(disk, root, path, k, n - 1);
    }
}

} // verus!

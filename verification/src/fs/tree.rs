//! What a disk means as a directory tree: table chains, name lookup, path
//! resolution and file contents, all as functions of the sectors alone.
//!
//! Every walk along continuation addresses is bounded by the number of
//! sectors on the disk, so a chain that loops back on itself is cut off
//! rather than followed forever.

use crate::fs::layout::{has_magic, link_of, payload, sector_at, sector_entries, Entry};
use crate::fs::table::first_hit;
use crate::text::views;
use vstd::prelude::*;

verus! {

/// Whether the sector at `a` is a live directory table.
pub open spec fn live(disk: Seq<[u8; 512]>, a: u32) -> bool {
    has_magic(sector_at(disk, a))
}

/// The entries of the sector at `a`, read as a directory table.
pub open spec fn entries_at(disk: Seq<[u8; 512]>, a: u32) -> Seq<Entry> {
    sector_entries(sector_at(disk, a))
}

/// The continuation address of the sector at `a`.
pub open spec fn next_at(disk: Seq<[u8; 512]>, a: u32) -> u32 {
    link_of(sector_at(disk, a))
}

/// The live table sectors of the directory whose head table is at `a`, in
/// link order, following at most `fuel` tables.
pub open spec fn table_chain(disk: Seq<[u8; 512]>, a: u32, fuel: nat) -> Seq<u32>
    decreases fuel,
{
    if fuel == 0 || !live(disk, a) {
        Seq::empty()
    } else if next_at(disk, a) == 0 {
        seq![a]
    } else {
        seq![a] + table_chain(disk, next_at(disk, a), (fuel - 1) as nat)
    }
}

/// All entries of the directory whose head table is at `a`, table by table
/// in link order.
pub open spec fn dir_entries(disk: Seq<[u8; 512]>, a: u32, fuel: nat) -> Seq<Entry>
    decreases fuel,
{
    if fuel == 0 || !live(disk, a) {
        Seq::empty()
    } else if next_at(disk, a) == 0 {
        entries_at(disk, a)
    } else {
        entries_at(disk, a) + dir_entries(disk, next_at(disk, a), (fuel - 1) as nat)
    }
}

/// Where the directory whose head table is at `a` first lists an entry of
/// the given kind and name: the table's address and the position among that
/// table's entries.
pub open spec fn locate(disk: Seq<[u8; 512]>, a: u32, fuel: nat, name: Seq<char>, is_dir: bool) -> Option<(u32, int)>
    decreases fuel,
{
    if fuel == 0 || !live(disk, a) {
        None
    } else if first_hit(entries_at(disk, a), name, is_dir) >= 0 {
        Some((a, first_hit(entries_at(disk, a), name, is_dir)))
    } else if next_at(disk, a) == 0 {
        None
    } else {
        locate(disk, next_at(disk, a), (fuel - 1) as nat, name, is_dir)
    }
}

/// The entry that `locate` points at.
pub open spec fn found(disk: Seq<[u8; 512]>, a: u32, name: Seq<char>, is_dir: bool) -> Option<Entry> {
    match locate(disk, a, disk.len(), name, is_dir) {
        Some((t, i)) => Some(entries_at(disk, t)[i]),
        None => None,
    }
}

/// The head table of the directory that `path` names, walking down from the
/// root table at `root`. A directory exists only while its head table is
/// live.
pub open spec fn resolve_dir(disk: Seq<[u8; 512]>, root: u32, path: Seq<Seq<char>>) -> Option<u32>
    decreases path.len(),
{
    if path.len() == 0 {
        if live(disk, root) {
            Some(root)
        } else {
            None
        }
    } else {
        match resolve_dir(disk, root, path.drop_last()) {
            None => None,
            Some(h) => match found(disk, h, path.last(), true) {
                Some(e) => if live(disk, e.addr) {
                    Some(e.addr)
                } else {
                    None
                },
                None => None,
            },
        }
    }
}

/// The entry of the given kind that `path` names: the first one with the
/// last component's name in the directory that the components before it
/// lead to.
pub open spec fn lookup(disk: Seq<[u8; 512]>, root: u32, path: Seq<Seq<char>>, is_dir: bool) -> Option<Entry> {
    if path.len() == 0 {
        None
    } else {
        match resolve_dir(disk, root, path.drop_last()) {
            None => None,
            Some(h) => found(disk, h, path.last(), is_dir),
        }
    }
}

/// The sectors of the data chain that starts at `a`, in link order,
/// following at most `fuel` sectors.
pub open spec fn data_chain(disk: Seq<[u8; 512]>, a: u32, fuel: nat) -> Seq<u32>
    decreases fuel,
{
    if fuel == 0 || a >= disk.len() {
        Seq::empty()
    } else if next_at(disk, a) == 0 {
        seq![a]
    } else {
        seq![a] + data_chain(disk, next_at(disk, a), (fuel - 1) as nat)
    }
}

/// The payloads along the data chain that starts at `a`, concatenated.
pub open spec fn chain_bytes(disk: Seq<[u8; 512]>, a: u32, fuel: nat) -> Seq<u8>
    decreases fuel,
{
    if fuel == 0 || a >= disk.len() {
        Seq::empty()
    } else if next_at(disk, a) == 0 {
        payload(sector_at(disk, a))
    } else {
        payload(sector_at(disk, a)) + chain_bytes(disk, next_at(disk, a), (fuel - 1) as nat)
    }
}

/// The contents of the file whose first data sector is at `a`.
pub open spec fn file_bytes(disk: Seq<[u8; 512]>, a: u32) -> Seq<u8> {
    chain_bytes(disk, a, disk.len())
}

/// The sectors that hold the file whose first data sector is at `a`.
pub open spec fn file_sectors(disk: Seq<[u8; 512]>, a: u32) -> Seq<u32> {
    data_chain(disk, a, disk.len())
}

/// The name a listing shows for an entry: directories carry a trailing `/`.
pub open spec fn label(e: Entry) -> Seq<char> {
    if e.is_dir {
        e.name.push('/')
    } else {
        e.name
    }
}

/// The components of a path as character sequences.
pub open spec fn path_of(p: Seq<String>) -> Seq<Seq<char>> {
    views(p)
}

} // verus!

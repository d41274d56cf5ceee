//! Directory-table sectors held in memory, and the handles they list.

use crate::ata::Drive;
use crate::bits::{lemma_zero_bytes, u32_from_be, u32_to_be};
use crate::fs::layout::{blank, entries_ok, entries_upto, entry_ok, has_magic, lemma_sector_entries_ok, lemma_slot_index, link_of, name_chars, name_ok, sector_at, sector_entries, slot_base, slot_byte, slot_entry, table_byte, table_image, Entry};
use vstd::prelude::*;
use vstd::string::StrSliceExecFns;

verus! {

/// A file as a directory lists it: a name and the address of its first data
/// sector. It holds nothing of the file's contents.
#[derive(Clone, Debug)]
pub struct File {
    pub name: String,
    pub drive_index: usize,
    pub entry_addr: u32,
}

/// A directory as its parent lists it: a name and the address of its head
/// table.
#[derive(Clone, Debug)]
pub struct Dir {
    pub name: String,
    pub drive_index: usize,
    pub entry_addr: u32,
}

/// What a directory slot refers to.
#[derive(Clone)]
pub enum FileType {
    File(File),
    Dir(Dir),
}

impl FileType {
    /// The slot contents this handle stands for.
    pub open spec fn entry(&self) -> Entry {
        match self {
            FileType::File(f) => Entry { name: f.name@, is_dir: false, addr: f.entry_addr },
            FileType::Dir(d) => Entry { name: d.name@, is_dir: true, addr: d.entry_addr },
        }
    }

    /// The drive the handle says it lives on.
    pub open spec fn drive_index(&self) -> usize {
        match self {
            FileType::File(f) => f.drive_index,
            FileType::Dir(d) => d.drive_index,
        }
    }
}

/// Whether `e` is the kind of entry asked for and carries the name asked
/// for.
pub open spec fn hits(e: Entry, name: Seq<char>, is_dir: bool) -> bool {
    e.is_dir == is_dir && e.name == name
}

/// Index of the first entry from position `k` on that `hits`, or -1.
pub open spec fn first_hit_from(es: Seq<Entry>, name: Seq<char>, is_dir: bool, k: int) -> int
    decreases es.len() - k,
{
    if k < 0 || k >= es.len() {
        -1
    } else if hits(es[k], name, is_dir) {
        k
    } else {
        first_hit_from(es, name, is_dir, k + 1)
    }
}

/// Index of the first entry that `hits`, or -1 when none does.
pub open spec fn first_hit(es: Seq<Entry>, name: Seq<char>, is_dir: bool) -> int {
    first_hit_from(es, name, is_dir, 0)
}

/// `first_hit_from` yields the least hitting index at or after `k`.
pub proof fn lemma_first_hit_from(es: Seq<Entry>, name: Seq<char>, is_dir: bool, k: int)
    requires
        0 <= k,
    ensures
        ({
            let r = first_hit_from(es, name, is_dir, k);
            &&& (r == -1 || k <= r < es.len())
            &&& r >= 0 ==> hits(es[r], name, is_dir)
            &&& forall|j: int| k <= j < (if r >= 0 { r } else { es.len() as int }) ==> !hits(#[trigger] es[j], name, is_dir)
        }),
    decreases es.len() - k,
{
    if k < es.len() && !hits(es[k], name, is_dir) {
        lemma_first_hit_from(es, name, is_dir, k + 1);
    }
}

/// `first_hit` yields the least hitting index, and -1 exactly when no
/// entry hits.
pub proof fn lemma_first_hit(es: Seq<Entry>, name: Seq<char>, is_dir: bool)
    ensures
        ({
            let r = first_hit(es, name, is_dir);
            &&& (r == -1 || 0 <= r < es.len())
            &&& r >= 0 ==> hits(es[r], name, is_dir)
            &&& forall|j: int| 0 <= j < (if r >= 0 { r } else { es.len() as int }) ==> !hits(#[trigger] es[j], name, is_dir)
        }),
{
    lemma_first_hit_from(es, name, is_dir, 0);
}

/// An index that hits with no hit before it is the first hit.
pub proof fn lemma_first_hit_is(es: Seq<Entry>, name: Seq<char>, is_dir: bool, i: int)
    requires
        0 <= i < es.len(),
        hits(es[i], name, is_dir),
        forall|j: int| 0 <= j < i ==> !hits(#[trigger] es[j], name, is_dir),
    ensures
        first_hit(es, name, is_dir) == i,
{
    lemma_first_hit(es, name, is_dir);
}

/// With no hitting entry there is no first hit.
pub proof fn lemma_first_hit_none(es: Seq<Entry>, name: Seq<char>, is_dir: bool)
    requires
        forall|j: int| 0 <= j < es.len() ==> !hits(#[trigger] es[j], name, is_dir),
    ensures
        first_hit(es, name, is_dir) == -1,
{
    lemma_first_hit(es, name, is_dir);
}

/// Appending an entry keeps an earlier first hit, and makes the new entry
/// the first hit when there was none and it hits.
pub proof fn lemma_first_hit_push(es: Seq<Entry>, e: Entry, name: Seq<char>, is_dir: bool)
    ensures
        first_hit(es.push(e), name, is_dir) == if first_hit(es, name, is_dir) >= 0 {
            first_hit(es, name, is_dir)
        } else if hits(e, name, is_dir) {
            es.len() as int
        } else {
            -1
        },
{
    lemma_first_hit(es, name, is_dir);
    lemma_first_hit(es.push(e), name, is_dir);
    let r = first_hit(es, name, is_dir);
    let q = first_hit(es.push(e), name, is_dir);
    if r >= 0 {
        assert(es.push(e)[r] == es[r]);
        if q > r {
            assert(!hits(es.push(e)[r], name, is_dir));
        }
        if 0 <= q < r {
            assert(es.push(e)[q] == es[q]);
        }
    } else {
        if 0 <= q < es.len() {
            assert(es.push(e)[q] == es[q]);
        }
        if hits(e, name, is_dir) {
            assert(es.push(e)[es.len() as int] == e);
        }
    }
}

/// Removing an entry that does not hit leaves the first hit where it was,
/// one place down if the removed entry stood before it.
pub proof fn lemma_first_hit_remove_other(es: Seq<Entry>, k: int, name: Seq<char>, is_dir: bool)
    requires
        0 <= k < es.len(),
        !hits(es[k], name, is_dir),
    ensures
        ({
            let r = first_hit(es, name, is_dir);
            let q = first_hit(es.remove(k), name, is_dir);
            &&& r < 0 ==> q < 0
            &&& 0 <= r < k ==> q == r
            &&& r > k ==> q == r - 1
            &&& q >= 0 ==> es.remove(k)[q] == es[r]
        }),
{
    lemma_first_hit(es, name, is_dir);
    lemma_first_hit(es.remove(k), name, is_dir);
    es.remove_ensures(k);
    let r = first_hit(es, name, is_dir);
    let q = first_hit(es.remove(k), name, is_dir);
    if q >= 0 {
        if q < k {
            assert(es.remove(k)[q] == es[q]);
        } else {
            assert(es.remove(k)[q] == es[q + 1]);
        }
    }
    if r >= 0 {
        if r < k {
            assert(es.remove(k)[r] == es[r]);
        } else {
            assert(es.remove(k)[r - 1] == es[r]);
        }
    }
}

/// Removing an entry from a list without a hit leaves it without one.
pub proof fn lemma_first_hit_remove_none(es: Seq<Entry>, k: int, name: Seq<char>, is_dir: bool)
    requires
        0 <= k < es.len(),
        first_hit(es, name, is_dir) < 0,
    ensures
        first_hit(es.remove(k), name, is_dir) < 0,
{
    lemma_first_hit(es, name, is_dir);
    lemma_first_hit(es.remove(k), name, is_dir);
    es.remove_ensures(k);
    let q = first_hit(es.remove(k), name, is_dir);
    if q >= 0 {
        if q < k {
            assert(es.remove(k)[q] == es[q]);
        } else {
            assert(es.remove(k)[q] == es[q + 1]);
        }
    }
}

/// One sector of a directory's table chain, as loaded from a drive.
#[derive(Clone)]
pub struct FileTableSector {
    pub addr: u32,
    pub directory_name: Option<String>,
    pub continuation_addr: Option<u32>,
    pub files: Vec<FileType>,
    pub drive_index: usize,
    pub is_deleted: bool,
}

/// `new` is `old` with the sector at `a` replaced by one that reads `s`;
/// nothing at all changes when `a` lies past the end of the disk.
pub open spec fn wrote(old: Seq<[u8; 512]>, new: Seq<[u8; 512]>, a: u32, s: Seq<u8>) -> bool {
    &&& new.len() == old.len()
    &&& forall|b: int| 0 <= b < old.len() && b != a ==> #[trigger] new[b] == old[b]
    &&& a < old.len() ==> new[a as int]@ == s
}

/// Reads the NUL-padded name field that starts at `base`.
fn read_name(buf: &[u8; 512], base: usize) -> (name: String)
    requires
        base + 58 <= 512,
    ensures
        name@ == name_chars(buf@.subrange(base as int, base + 58)),
{
    let ghost raw = buf@.subrange(base as int, base + 58);
    let mut name = String::new();
    let mut o: usize = 0;
    proof {
        assert(raw.skip(0) =~= raw);
        assert(name@ + name_chars(raw) =~= name_chars(raw));
    }
    while o < 58 && buf[base + o] != 0
        invariant
            o <= 58,
            base + 58 <= 512,
            raw == buf@.subrange(base as int, base + 58),
            name@ + name_chars(raw.skip(o as int)) == name_chars(raw),
        decreases 58 - o,
    {
        let c = buf[base + o] as char;
        proof {
            let rest = raw.skip(o as int);
            assert(rest[0] == buf@[base + o]);
            assert(rest.drop_first() =~= raw.skip(o + 1));
            assert(name@.push(c) + name_chars(raw.skip(o + 1)) =~= name@ + name_chars(rest));
        }
        name.push(c);
        o += 1;
    }
    proof {
        let rest = raw.skip(o as int);
        if o < 58 {
            assert(rest[0] == buf@[base + o]);
        }
        assert(name_chars(rest) =~= Seq::<char>::empty());
        assert(name@ + name_chars(rest) =~= name@);
    }
    name
}

/// Stores one entry into slot `idx` of a table sector under construction.
fn write_slot(buf: &mut [u8; 512], idx: usize, name: &String, is_dir: bool, addr: u32)
    requires
        idx < 8,
        name_ok(name@),
    ensures
        forall|j: int|
            0 <= j < 512 ==> #[trigger] final(buf)[j] == if slot_base(idx as int) <= j < slot_base(idx as int) + 63 {
                slot_byte(Entry { name: name@, is_dir, addr }, j - slot_base(idx as int))
            } else {
                old(buf)[j]
            },
{
    let base: usize = 4 + idx * 63;
    let ghost e = Entry { name: name@, is_dir, addr };
    let text = name.as_str();
    let len = text.unicode_len();
    let mut o: usize = 0;
    while o < 58
        invariant
            o <= 58,
            idx < 8,
            base == slot_base(idx as int),
            name_ok(name@),
            text@ == name@,
            len == name@.len(),
            e == (Entry { name: name@, is_dir, addr }),
            forall|j: int|
                0 <= j < 512 ==> #[trigger] buf[j] == if base <= j < base + o {
                    slot_byte(e, j - base)
                } else {
                    old(buf)[j]
                },
        decreases 58 - o,
    {
        if o < len {
            let c = text.get_char(o);
            assert(1 <= name@[o as int] as int <= 255);
            buf[base + o] = c as u8;
        } else {
            buf[base + o] = 0;
        }
        o += 1;
    }
    buf[base + 58] = if is_dir { 1 } else { 0 };
    let a = u32_to_be(addr);
    buf[base + 59] = a[0];
    buf[base + 60] = a[1];
    buf[base + 61] = a[2];
    buf[base + 62] = a[3];
}

impl FileTableSector {
    /// The entries of this table, in slot order.
    pub open spec fn entries(&self) -> Seq<Entry> {
        Seq::new(self.files@.len(), |i: int| self.files@[i].entry())
    }

    /// The continuation address as stored on disk: 0 when there is none.
    pub open spec fn link(&self) -> u32 {
        match self.continuation_addr {
            Some(a) => a,
            None => 0,
        }
    }

    /// The table fits one sector and every entry reads back as occupied.
    pub open spec fn wf(&self) -> bool {
        entries_ok(self.entries())
    }

    /// The sector contents that store this table.
    pub open spec fn image(&self) -> Seq<u8> {
        table_image(self.link(), self.entries(), !self.is_deleted)
    }

    /// This is the table that sector `self.addr` of `disk` holds: its
    /// entries, its continuation, and whether it carries the signature.
    pub open spec fn mirrors(&self, disk: Seq<[u8; 512]>) -> bool {
        &&& self.entries() == sector_entries(sector_at(disk, self.addr))
        &&& self.continuation_addr == (if link_of(sector_at(disk, self.addr)) != 0 {
            Some(link_of(sector_at(disk, self.addr)))
        } else {
            None
        })
        &&& self.is_deleted == !has_magic(sector_at(disk, self.addr))
        &&& self.wf()
    }

    /// Loads the table stored at `addr`.
    ///
    /// Any sector can be read as a table; `is_deleted` tells whether it
    /// lacks the signature of a live one.
    pub fn load(addr: u32, drive: &Drive, directory_name: Option<String>) -> (t: Self)
        ensures
            t.addr == addr,
            t.directory_name == directory_name,
            t.drive_index == drive.drive_index as usize,
            t.entries() == sector_entries(sector_at(drive@, addr)),
            t.continuation_addr == (if link_of(sector_at(drive@, addr)) != 0 {
                Some(link_of(sector_at(drive@, addr)))
            } else {
                None
            }),
            t.is_deleted == !has_magic(sector_at(drive@, addr)),
            forall|i: int| 0 <= i < t.files@.len() ==> (#[trigger] t.files@[i]).drive_index() == t.drive_index,
            t.wf(),
            t.mirrors(drive@),
    {
        let mut buf = [0u8; 512];
        drive.read(addr, &mut buf);
        let ghost s = sector_at(drive@, addr);
        assert(buf@ =~= s);
        let continuation_addr = u32_from_be(buf[0], buf[1], buf[2], buf[3]);
        let continuation_option = if continuation_addr != 0 {
            Some(continuation_addr)
        } else {
            None
        };
        let drive_index = drive.drive_index as usize;
        let mut files: Vec<FileType> = Vec::new();
        let mut i: usize = 0;
        while i < 8
            invariant
                i <= 8,
                buf@ == s,
                Seq::new(files@.len(), |k: int| files@[k].entry()) == entries_upto(s, i as int),
                forall|k: int| 0 <= k < files@.len() ==> (#[trigger] files@[k]).drive_index() == drive_index,
            decreases 8 - i,
        {
            let base: usize = 4 + i * 63;
            let file_addr = u32_from_be(buf[base + 59], buf[base + 60], buf[base + 61], buf[base + 62]);
            let ghost before = Seq::new(files@.len(), |k: int| files@[k].entry());
            if file_addr != 0 {
                let file_name = read_name(&buf, base);
                if buf[base + 58] == 0 {
                    files.push(FileType::File(File { name: file_name, entry_addr: file_addr, drive_index }));
                } else {
                    files.push(FileType::Dir(Dir { name: file_name, entry_addr: file_addr, drive_index }));
                }
                assert(Seq::new(files@.len(), |k: int| files@[k].entry()) =~= before.push(slot_entry(s, i as int)));
            }
            i += 1;
        }
        let is_deleted = !(buf[508] == 0x50 && buf[509] == 0x4f && buf[510] == 0x47 && buf[511] == 0x4f);
        proof {
            lemma_sector_entries_ok(s, 8);
        }
        FileTableSector { addr, directory_name, continuation_addr: continuation_option, files, drive_index, is_deleted }
    }

    /// Initialises the sector at `new_addr` as an empty live table and
    /// returns it.
    pub fn new(new_addr: u32, drive: &mut Drive, directory_name: Option<String>) -> (t: Self)
        ensures
            t.addr == new_addr,
            t.directory_name == directory_name,
            t.continuation_addr.is_none(),
            t.files@.len() == 0,
            t.drive_index == old(drive).drive_index as usize,
            !t.is_deleted,
            t.wf(),
            wrote(old(drive)@, final(drive)@, new_addr, t.image()),
            final(drive).same_identity(*old(drive)),
    {
        let mut init_buf = [0u8; 512];
        init_buf[508] = 0x50;
        init_buf[509] = 0x4f;
        init_buf[510] = 0x47;
        init_buf[511] = 0x4f;
        let t = FileTableSector {
            addr: new_addr,
            directory_name,
            continuation_addr: None,
            files: Vec::new(),
            drive_index: drive.drive_index as usize,
            is_deleted: false,
        };
        proof {
            lemma_zero_bytes();
            assert(init_buf@ =~= t.image());
        }
        drive.write(new_addr, &init_buf);
        t
    }

    /// Clears the table and zeroes its sector, which also erases the
    /// signature.
    pub fn remove(&mut self, drive: &mut Drive)
        ensures
            final(self).addr == old(self).addr,
            final(self).directory_name == old(self).directory_name,
            final(self).drive_index == old(self).drive_index,
            final(self).continuation_addr.is_none(),
            final(self).files@.len() == 0,
            final(self).is_deleted,
            wrote(old(drive)@, final(drive)@, old(self).addr, blank()),
            final(drive).same_identity(*old(drive)),
    {
        self.continuation_addr = None;
        self.files = Vec::new();
        self.is_deleted = true;
        proof {
            lemma_zero_bytes();
            assert(self.image() =~= blank());
        }
        self.update_physical_drive(drive);
    }

    /// Writes the table to its sector.
    #[verifier::rlimit(40)]
    pub fn update_physical_drive(&self, drive: &mut Drive)
        requires
            self.wf(),
        ensures
            wrote(old(drive)@, final(drive)@, self.addr, self.image()),
            final(drive).same_identity(*old(drive)),
    {
        let mut buf = [0u8; 512];
        let link: u32 = match self.continuation_addr {
            Some(continuation) => continuation,
            None => 0,
        };
        let l = u32_to_be(link);
        buf[0] = l[0];
        buf[1] = l[1];
        buf[2] = l[2];
        buf[3] = l[3];
        let ghost es = self.entries();
        let mut idx: usize = 0;
        while idx < self.files.len()
            invariant
                idx <= self.files@.len() <= 8,
                es == self.entries(),
                entries_ok(es),
                link == self.link(),
                forall|j: int| 0 <= j < 512 ==> #[trigger] buf[j] == table_byte(link, es.take(idx as int), false, j),
            decreases self.files@.len() - idx,
        {
            let ghost prev = buf@;
            assert(entry_ok(es[idx as int]));
            match &self.files[idx] {
                FileType::File(file) => {
                    write_slot(&mut buf, idx, &file.name, false, file.entry_addr);
                },
                FileType::Dir(dir) => {
                    write_slot(&mut buf, idx, &dir.name, true, dir.entry_addr);
                },
            }
            proof {
                let e = es[idx as int];
                let base = slot_base(idx as int);
                assert forall|j: int| 0 <= j < 512 implies #[trigger] buf[j] == table_byte(
                    link,
                    es.take(idx + 1),
                    false,
                    j,
                ) by {
                    assert(prev[j] == table_byte(link, es.take(idx as int), false, j));
                    if base <= j < base + 63 {
                        lemma_slot_index(idx as int, j - base);
                        assert(es.take(idx + 1)[idx as int] == e);
                    } else if 4 <= j < 508 {
                        let k = (j - 4) / 63;
                        if k < idx {
                            assert(es.take(idx + 1)[k] == es.take(idx as int)[k]);
                        }
                    }
                }
            }
            idx += 1;
        }
        if !self.is_deleted {
            buf[508] = 0x50;
            buf[509] = 0x4f;
            buf[510] = 0x47;
            buf[511] = 0x4f;
        }
        proof {
            assert(es.take(idx as int) =~= es);
            assert(buf@ =~= self.image());
        }
        drive.write(self.addr, &buf);
    }

    /// Sets the continuation address and writes the table.
    pub fn set_continuation(&mut self, sector: u32, drive: &mut Drive)
        requires
            old(self).wf(),
        ensures
            final(self).addr == old(self).addr,
            final(self).directory_name == old(self).directory_name,
            final(self).drive_index == old(self).drive_index,
            final(self).continuation_addr == Some(sector),
            final(self).files == old(self).files,
            final(self).is_deleted == old(self).is_deleted,
            wrote(old(drive)@, final(drive)@, old(self).addr, final(self).image()),
            final(drive).same_identity(*old(drive)),
    {
        self.continuation_addr = Some(sector);
        self.update_physical_drive(drive);
    }

    /// Appends a file entry and writes the table. The table must have a
    /// free slot.
    pub fn add_file(&mut self, name: &str, addr: u32, drive: &mut Drive)
        requires
            old(self).wf(),
            old(self).files@.len() < 8,
            name_ok(name@),
            addr != 0,
        ensures
            final(self).addr == old(self).addr,
            final(self).directory_name == old(self).directory_name,
            final(self).drive_index == old(self).drive_index,
            final(self).continuation_addr == old(self).continuation_addr,
            final(self).is_deleted == old(self).is_deleted,
            final(self).entries() == old(self).entries().push(Entry { name: name@, is_dir: false, addr }),
            final(self).wf(),
            wrote(old(drive)@, final(drive)@, old(self).addr, final(self).image()),
            final(drive).same_identity(*old(drive)),
    {
        let ghost before = self.entries();
        self.files.push(FileType::File(File { name: name.to_owned(), drive_index: self.drive_index, entry_addr: addr }));
        assert(self.entries() =~= before.push(Entry { name: name@, is_dir: false, addr }));
        self.update_physical_drive(drive);
    }

    /// Appends a directory entry and writes the table. The table must have
    /// a free slot.
    pub fn add_dir(&mut self, name: &str, addr: u32, drive: &mut Drive)
        requires
            old(self).wf(),
            old(self).files@.len() < 8,
            name_ok(name@),
            addr != 0,
        ensures
            final(self).addr == old(self).addr,
            final(self).directory_name == old(self).directory_name,
            final(self).drive_index == old(self).drive_index,
            final(self).continuation_addr == old(self).continuation_addr,
            final(self).is_deleted == old(self).is_deleted,
            final(self).entries() == old(self).entries().push(Entry { name: name@, is_dir: true, addr }),
            final(self).wf(),
            wrote(old(drive)@, final(drive)@, old(self).addr, final(self).image()),
            final(drive).same_identity(*old(drive)),
    {
        let ghost before = self.entries();
        self.files.push(FileType::Dir(Dir { name: name.to_owned(), drive_index: self.drive_index, entry_addr: addr }));
        assert(self.entries() =~= before.push(Entry { name: name@, is_dir: true, addr }));
        self.update_physical_drive(drive);
    }

    /// Position of the first entry of the given kind and name.
    pub fn position(&self, name: &str, is_dir: bool) -> (r: Option<usize>)
        ensures
            match r {
                Some(i) => i == first_hit(self.entries(), name@, is_dir),
                None => first_hit(self.entries(), name@, is_dir) == -1,
            },
    {
        let wanted = name.to_owned();
        let ghost es = self.entries();
        let mut i: usize = 0;
        while i < self.files.len()
            invariant
                i <= self.files@.len(),
                es == self.entries(),
                wanted@ == name@,
                forall|j: int| 0 <= j < i ==> !hits(#[trigger] es[j], name@, is_dir),
            decreases self.files@.len() - i,
        {
            let found = match &self.files[i] {
                FileType::File(f) => !is_dir && f.name == wanted,
                FileType::Dir(d) => is_dir && d.name == wanted,
            };
            assert(found == hits(es[i as int], name@, is_dir));
            if found {
                proof {
                    lemma_first_hit_is(es, name@, is_dir, i as int);
                }
                return Some(i);
            }
            i += 1;
        }
        proof {
            lemma_first_hit_none(es, name@, is_dir);
        }
        None
    }

    /// The first file of this table with the given name.
    pub fn get_file(&self, name: &str) -> (r: Option<File>)
        ensures
            match r {
                Some(f) => {
                    let i = first_hit(self.entries(), name@, false);
                    &&& 0 <= i < self.files@.len()
                    &&& self.files@[i] == FileType::File(f)
                },
                None => first_hit(self.entries(), name@, false) == -1,
            },
    {
        proof {
            lemma_first_hit(self.entries(), name@, false);
        }
        match self.position(name, false) {
            Some(i) => match &self.files[i] {
                FileType::File(f) => Some(File { name: f.name.clone(), drive_index: f.drive_index, entry_addr: f.entry_addr }),
                FileType::Dir(_) => None,
            },
            None => None,
        }
    }

    /// The first directory of this table with the given name.
    pub fn get_dir(&self, name: &str) -> (r: Option<Dir>)
        ensures
            match r {
                Some(d) => {
                    let i = first_hit(self.entries(), name@, true);
                    &&& 0 <= i < self.files@.len()
                    &&& self.files@[i] == FileType::Dir(d)
                },
                None => first_hit(self.entries(), name@, true) == -1,
            },
    {
        proof {
            lemma_first_hit(self.entries(), name@, true);
        }
        match self.position(name, true) {
            Some(i) => match &self.files[i] {
                FileType::Dir(d) => Some(Dir { name: d.name.clone(), drive_index: d.drive_index, entry_addr: d.entry_addr }),
                FileType::File(_) => None,
            },
            None => None,
        }
    }

    /// Whether the table holds a file or a directory with the given name.
    pub fn contains_object(&self, name: &str) -> (r: bool)
        ensures
            r == (first_hit(self.entries(), name@, false) >= 0 || first_hit(self.entries(), name@, true) >= 0),
    {
        proof {
            lemma_first_hit(self.entries(), name@, false);
            lemma_first_hit(self.entries(), name@, true);
        }
        self.position(name, false).is_some() || self.position(name, true).is_some()
    }
}

} // verus!

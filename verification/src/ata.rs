//! ATA drives as arrays of 512-byte sectors, of which only those that hold
//! anything are kept, and the free-sector search the filesystem allocates
//! from.

pub mod bus;
pub mod identify;
pub mod session;

pub use crate::ata::bus::Bus;

use crate::ata::identify::{field_text, identify_model, identify_sectors, identify_serial, sector_count};

use std::collections::HashMap;
use vstd::prelude::*;

verus! {

broadcast use vstd::std_specs::hash::group_hash_axioms;

/// A sector is free when every one of its 512 bytes is zero.
pub open spec fn is_free(sector: [u8; 512]) -> bool {
    forall|i: int| 0 <= i < 512 ==> sector[i] == 0
}

/// Number of free sectors among the addresses `1..n` of `disk`.
///
/// Address 0 is never handed out, so it is not counted.
pub open spec fn free_count(disk: Seq<[u8; 512]>, n: int) -> nat
    decreases n,
{
    if n <= 1 {
        0
    } else {
        free_count(disk, n - 1) + if is_free(disk[n - 1]) {
            1nat
        } else {
            0nat
        }
    }
}

/// The highest free address among `1..n`, or 0 when none of them is free.
pub open spec fn top_free(disk: Seq<[u8; 512]>, n: int) -> int
    decreases n,
{
    if n <= 1 {
        0
    } else if is_free(disk[n - 1]) {
        n - 1
    } else {
        top_free(disk, n - 1)
    }
}

/// `top_free` is free and has no free address above it; it is 0 exactly
/// when the free count is.
pub proof fn lemma_top_free(disk: Seq<[u8; 512]>, n: int)
    ensures
        top_free(disk, n) == 0 <==> free_count(disk, n) == 0,
        top_free(disk, n) == 0 ==> forall|a: int| 1 <= a < n ==> !is_free(#[trigger] disk[a]),
        top_free(disk, n) != 0 ==> 1 <= top_free(disk, n) < n && is_free(disk[top_free(disk, n)]),
        forall|a: int| top_free(disk, n) < a < n && 1 <= a ==> !is_free(#[trigger] disk[a]),
    decreases n,
{
    if n > 1 {
        lemma_top_free(disk, n - 1);
    }
}

/// The free sector that the allocator hands out after `k` earlier ones were
/// handed out and put to use: the highest free address for `k` = 0, and
/// then the highest free address below the one before. It is 0 when there
/// is none.
pub open spec fn nth_free(disk: Seq<[u8; 512]>, k: nat) -> int
    decreases k,
{
    if k == 0 {
        top_free(disk, disk.len() as int)
    } else {
        top_free(disk, nth_free(disk, (k - 1) as nat))
    }
}

/// Two disks that agree on which of the addresses `1..n` are free have the
/// same highest free address among them.
pub proof fn lemma_top_free_same(d0: Seq<[u8; 512]>, d1: Seq<[u8; 512]>, n: int)
    requires
        forall|a: int| 1 <= a < n ==> is_free(#[trigger] d1[a]) == is_free(d0[a]),
    ensures
        top_free(d1, n) == top_free(d0, n),
    decreases n,
{
    if n > 1 {
        assert(is_free(d1[n - 1]) == is_free(d0[n - 1]));
        lemma_top_free_same(d0, d1, n - 1);
    }
}

/// Once the highest free sector is put to use, the highest free address is
/// the highest one that was free below it.
pub proof fn lemma_top_free_taken(d0: Seq<[u8; 512]>, d1: Seq<[u8; 512]>, n: int)
    requires
        top_free(d0, n) != 0,
        !is_free(d1[top_free(d0, n)]),
        forall|a: int| 1 <= a < n && a != top_free(d0, n) ==> is_free(#[trigger] d1[a]) == is_free(d0[a]),
    ensures
        top_free(d1, n) == top_free(d0, top_free(d0, n)),
    decreases n,
{
    lemma_top_free(d0, n);
    let m = top_free(d0, n);
    if n - 1 == m {
        lemma_top_free_same(d0, d1, m);
    } else {
        assert(!is_free(d0[n - 1]));
        assert(is_free(d1[n - 1]) == is_free(d0[n - 1]));
        lemma_top_free_taken(d0, d1, n - 1);
    }
}

/// Each sector the allocator hands out lies below the one before.
pub proof fn lemma_nth_free_falls(disk: Seq<[u8; 512]>, k: nat)
    ensures
        0 <= nth_free(disk, k) <= (if disk.len() == 0 { 0 } else { disk.len() - 1 }),
        k > 0 ==> nth_free(disk, k) <= nth_free(disk, (k - 1) as nat),
        k > 0 && nth_free(disk, k) != 0 ==> nth_free(disk, k) < nth_free(disk, (k - 1) as nat),
        nth_free(disk, k) != 0 ==> is_free(disk[nth_free(disk, k)]),
    decreases k,
{
    if k == 0 {
        lemma_top_free(disk, disk.len() as int);
    } else {
        lemma_nth_free_falls(disk, (k - 1) as nat);
        lemma_top_free(disk, nth_free(disk, (k - 1) as nat));
    }
}

/// A sector handed out later never lies above one handed out earlier.
pub proof fn lemma_nth_free_order(disk: Seq<[u8; 512]>, j: nat, k: nat)
    requires
        j <= k,
    ensures
        nth_free(disk, k) <= nth_free(disk, j),
    decreases k - j,
{
    if j < k {
        lemma_nth_free_order(disk, j, (k - 1) as nat);
        lemma_nth_free_falls(disk, k);
    }
}

/// The free sectors among `1..n` are the highest of them and the free
/// sectors below it.
pub proof fn lemma_free_count_top(disk: Seq<[u8; 512]>, n: int)
    requires
        top_free(disk, n) != 0,
    ensures
        free_count(disk, n) == free_count(disk, top_free(disk, n)) + 1,
    decreases n,
{
    if n > 1 && !is_free(disk[n - 1]) {
        lemma_free_count_top(disk, n - 1);
    }
}

/// The allocator can hand out `k + 1` sectors one after the other exactly
/// when at least that many are free.
pub proof fn lemma_free_count_nth(disk: Seq<[u8; 512]>, k: nat)
    ensures
        nth_free(disk, k) != 0 ==> free_count(disk, disk.len() as int) == free_count(disk, nth_free(disk, k)) + k + 1,
        nth_free(disk, k) != 0 <==> free_count(disk, disk.len() as int) >= k + 1,
    decreases k,
{
    if k == 0 {
        lemma_top_free(disk, disk.len() as int);
        if nth_free(disk, 0) != 0 {
            lemma_free_count_top(disk, disk.len() as int);
        }
    } else {
        lemma_free_count_nth(disk, (k - 1) as nat);
        let before = nth_free(disk, (k - 1) as nat);
        lemma_top_free(disk, before);
        if nth_free(disk, k) != 0 {
            lemma_free_count_top(disk, before);
        }
    }
}

/// Where a disk's highest free sector is the one that another disk hands
/// out after `b` earlier ones, and the two agree on what is free below it,
/// every further sector handed out is the same on both, `b` places apart.
pub proof fn lemma_nth_free_shift(d0: Seq<[u8; 512]>, d1: Seq<[u8; 512]>, b: nat, j: nat)
    requires
        d1.len() == d0.len(),
        nth_free(d1, 0) == nth_free(d0, b),
        forall|a: int| 1 <= a < nth_free(d0, b) ==> is_free(#[trigger] d1[a]) == is_free(d0[a]),
    ensures
        nth_free(d1, j) == nth_free(d0, b + j),
        nth_free(d0, b + j) <= nth_free(d0, b),
    decreases j,
{
    if j > 0 {
        lemma_nth_free_shift(d0, d1, b, (j - 1) as nat);
        lemma_nth_free_falls(d0, b + j);
        lemma_top_free_same(d0, d1, nth_free(d0, (b + j - 1) as nat));
    }
}

/// Tells whether all 512 bytes of `sector` are zero.
pub fn sector_is_free(sector: &[u8; 512]) -> (r: bool)
    ensures
        r == is_free(*sector),
{
    let mut i: usize = 0;
    while i < 512
        invariant
            i <= 512,
            forall|j: int| 0 <= j < i ==> sector[j] == 0,
        decreases 512 - i,
    {
        if sector[i] != 0 {
            return false;
        }
        i += 1;
    }
    true
}

/// Tells whether two sectors hold the same bytes.
pub fn same_sector(a: &[u8; 512], b: &[u8; 512]) -> (r: bool)
    ensures
        r == (*a == *b),
{
    let mut i: usize = 0;
    while i < 512
        invariant
            i <= 512,
            forall|j: int| 0 <= j < i ==> a[j] == b[j],
        decreases 512 - i,
    {
        if a[i] != b[i] {
            return false;
        }
        i += 1;
    }
    assert(*a =~= *b);
    true
}

/// A detected ATA drive: what it reported about itself, and its sectors.
///
/// Only the sectors that are not all zero are kept, so a drive takes no
/// more memory than what is stored on it.
#[derive(Clone, Debug)]
pub struct Drive {
    pub bus_index: u8,
    pub drive_index: u8,
    pub model: String,
    pub serial: String,
    pub sectors: u32,
    /// The sectors that are not all zero, by address. A sector without an
    /// entry here holds zeros.
    pub image: HashMap<u32, [u8; 512]>,
}

/// The sector that holds nothing but zeros.
pub open spec fn zeros() -> [u8; 512] {
    vstd::array::spec_array_fill_for_copy_type::<u8, 512>(0u8)
}

impl View for Drive {
    type V = Seq<[u8; 512]>;

    /// The contents of the drive, one array per sector address.
    open spec fn view(&self) -> Seq<[u8; 512]> {
        Seq::new(
            self.sectors as nat,
            |a: int|
                if self.image@.contains_key(a as u32) {
                    self.image@[a as u32]
                } else {
                    zeros()
                },
        )
    }
}

impl Drive {
    /// `other` describes the same device: bus, position, names and size.
    pub open spec fn same_identity(&self, other: Drive) -> bool {
        &&& self.bus_index == other.bus_index
        &&& self.drive_index == other.drive_index
        &&& self.model == other.model
        &&& self.serial == other.serial
        &&& self.sectors == other.sectors
    }

    /// A blank drive of `sectors` sectors, every one of them zeroed.
    pub fn new(bus_index: u8, drive_index: u8, model: String, serial: String, sectors: u32) -> (d: Drive)
        ensures
            d.bus_index == bus_index,
            d.drive_index == drive_index,
            d.model == model,
            d.serial == serial,
            d.sectors == sectors,
            forall|a: int| 0 <= a < sectors ==> is_free(#[trigger] d@[a]),
    {
        let image: HashMap<u32, [u8; 512]> = HashMap::new();
        Drive { bus_index, drive_index, model, serial, sectors, image }
    }

    /// The drive that an identify block describes, with every sector still
    /// zeroed: its contents are not part of what the drive reports.
    pub fn from_identify(bus_index: u8, drive_index: u8, words: &[u16; 256]) -> (d: Drive)
        ensures
            d.bus_index == bus_index,
            d.drive_index == drive_index,
            d.model@ == identify_model(words@),
            d.serial@ == identify_serial(words@),
            d.sectors == identify_sectors(words@),
            forall|a: int| 0 <= a < d.sectors ==> is_free(#[trigger] d@[a]),
    {
        let serial = field_text(words, 10, 20);
        let model = field_text(words, 27, 47);
        let sectors = sector_count(words);
        Drive::new(bus_index, drive_index, model, serial, sectors)
    }

    /// Reads the sector at `block` into `buf`.
    ///
    /// A block past the end of the drive transfers nothing and leaves `buf`
    /// as it was.
    pub fn read(&self, block: u32, buf: &mut [u8; 512])
        ensures
            block < self@.len() ==> *final(buf) == self@[block as int],
            block >= self@.len() ==> *final(buf) == *old(buf),
    {
        if block < self.sectors {
            match self.image.get(&block) {
                Some(sector) => {
                    *buf = *sector;
                },
                None => {
                    *buf = [0u8; 512];
                },
            }
        }
    }

    /// Writes `buf` to the sector at `block`.
    ///
    /// A block past the end of the drive is ignored.
    pub fn write(&mut self, block: u32, buf: &[u8; 512])
        ensures
            block < old(self)@.len() ==> final(self)@ == old(self)@.update(block as int, *buf),
            block >= old(self)@.len() ==> final(self)@ == old(self)@,
            final(self).bus_index == old(self).bus_index,
            final(self).drive_index == old(self).drive_index,
            final(self).model == old(self).model,
            final(self).serial == old(self).serial,
            final(self).sectors == old(self).sectors,
    {
        if block < self.sectors {
            if sector_is_free(buf) {
                self.image.remove(&block);
                assert(*buf =~= zeros());
            } else {
                self.image.insert(block, *buf);
            }
            assert(self@ =~= old(self)@.update(block as int, *buf));
        }
    }

    /// The addresses of the sectors that differ from those of `stored`, in
    /// rising order: what has to be written to a device that holds what
    /// `stored` holds to make it hold what this drive holds.
    pub fn changed_since(&self, stored: &Drive) -> (changed: Vec<u32>)
        requires
            stored.sectors == self.sectors,
        ensures
            forall|k: int| 0 <= k < changed@.len() ==> (#[trigger] changed@[k]) < self.sectors && self@[changed@[k] as int]
                != stored@[changed@[k] as int],
            forall|a: int| 0 <= a < self.sectors && self@[a] != stored@[a] ==> changed@.contains(a as u32),
            forall|j: int, k: int| 0 <= j < k < changed@.len() ==> changed@[j] < changed@[k],
    {
        let mut changed: Vec<u32> = Vec::new();
        let mut a: u32 = 0;
        while a < self.sectors
            invariant
                stored.sectors == self.sectors,
                a <= self.sectors,
                forall|k: int| 0 <= k < changed@.len() ==> (#[trigger] changed@[k]) < a && self@[changed@[k] as int]
                    != stored@[changed@[k] as int],
                forall|b: int| 0 <= b < a && self@[b] != stored@[b] ==> changed@.contains(b as u32),
                forall|j: int, k: int| 0 <= j < k < changed@.len() ==> changed@[j] < changed@[k],
            decreases self.sectors - a,
        {
            let mut now = [0u8; 512];
            let mut then = [0u8; 512];
            self.read(a, &mut now);
            stored.read(a, &mut then);
            if !same_sector(&now, &then) {
                let ghost before = changed@;
                changed.push(a);
                proof {
                    assert(changed@[before.len() as int] == a);
                    assert forall|b: int| 0 <= b < a + 1 && self@[b] != stored@[b] implies changed@.contains(
                        b as u32,
                    ) by {
                        if b < a {
                            let k = choose|k: int| 0 <= k < before.len() && before[k] == b as u32;
                            assert(changed@[k] == b as u32);
                        }
                    }
                }
            }
            a += 1;
        }
        changed
    }

    /// Finds the highest-addressed free sector, never address 0.
    pub fn find_available_sector(&self) -> (r: Option<u32>)
        ensures
            r == (if top_free(self@, self.sectors as int) == 0 {
                None
            } else {
                Some(top_free(self@, self.sectors as int) as u32)
            }),
            match r {
                Some(s) => {
                    &&& 1 <= s < self.sectors
                    &&& is_free(self@[s as int])
                    &&& forall|a: int| s < a < self.sectors ==> !is_free(#[trigger] self@[a])
                },
                None => forall|a: int| 1 <= a < self.sectors ==> !is_free(#[trigger] self@[a]),
            },
    {
        proof {
            lemma_top_free(self@, self.sectors as int);
        }
        if self.sectors == 0 {
            return None;
        }
        let mut current_sector: u32 = self.sectors - 1;
        while current_sector > 0
            invariant
                current_sector < self.sectors,
                forall|a: int| current_sector < a < self.sectors ==> !is_free(#[trigger] self@[a]),
            decreases current_sector,
        {
            let mut buf = [0u8; 512];
            self.read(current_sector, &mut buf);
            if sector_is_free(&buf) {
                proof {
                    lemma_top_free(self@, self.sectors as int);
                }
                return Some(current_sector);
            }
            current_sector -= 1;
        }
        proof {
            lemma_top_free(self@, self.sectors as int);
        }
        None
    }

    /// Counts the free sectors that `find_available_sector` could hand out.
    pub fn free_sectors(&self) -> (n: u32)
        ensures
            n == free_count(self@, self.sectors as int),
    {
        if self.sectors == 0 {
            return 0;
        }
        let mut n: u32 = 0;
        let mut a: u32 = 1;
        while a < self.sectors
            invariant
                1 <= a <= self.sectors,
                n == free_count(self@, a as int),
                n < a,
            decreases self.sectors - a,
        {
            let mut buf = [0u8; 512];
            self.read(a, &mut buf);
            if sector_is_free(&buf) {
                n += 1;
            }
            a += 1;
        }
        n
    }
}

/// Writing a sector changes the free count by what the old and the new
/// contents of that sector contribute.
pub proof fn lemma_free_count_update(disk: Seq<[u8; 512]>, n: int, a: int, sector: [u8; 512])
    requires
        0 <= a < disk.len(),
        n <= disk.len(),
    ensures
        free_count(disk.update(a, sector), n) + (if 1 <= a < n && is_free(disk[a]) { 1int } else { 0int })
            == free_count(disk, n) + (if 1 <= a < n && is_free(sector) { 1int } else { 0int }),
    decreases n,
{
    if n > 1 {
        lemma_free_count_update(disk, n - 1, a, sector);
    }
}

/// The free count never exceeds the number of addresses it ranges over.
pub proof fn lemma_free_count_bound(disk: Seq<[u8; 512]>, n: int)
    ensures
        free_count(disk, n) <= if n <= 1 { 0 } else { n - 1 },
    decreases n,
{
    if n > 1 {
        lemma_free_count_bound(disk, n - 1);
    }
}

} // verus!

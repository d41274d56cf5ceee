//! Data sectors held in memory.

use crate::ata::Drive;
use crate::bits::{lemma_zero_bytes, u16_from_be, u16_to_be, u32_from_be, u32_to_be};
use crate::fs::layout::{blank, data_image, link_of, sector_at, size_of};
use crate::fs::table::wrote;
use vstd::prelude::*;

verus! {

/// One sector of a file's data chain, as loaded from a drive.
#[derive(Clone)]
pub struct DataSector {
    pub addr: u32,
    pub continuation_addr: Option<u32>,
    pub size: u16,
    pub data: [u8; 506],
    pub drive_index: usize,
}

/// `chunk` followed by zeros up to the 506 bytes of a payload area.
pub open spec fn filled(chunk: Seq<u8>) -> Seq<u8> {
    Seq::new(506, |i: int| if i < chunk.len() { chunk[i] } else { 0u8 })
}

impl DataSector {
    /// The continuation address as stored on disk: 0 when there is none.
    pub open spec fn link(&self) -> u32 {
        match self.continuation_addr {
            Some(a) => a,
            None => 0,
        }
    }

    /// The sector contents that store this block.
    pub open spec fn image(&self) -> Seq<u8> {
        data_image(self.link(), self.size, self.data@)
    }

    /// The header and payload area are those of sector `s`.
    pub open spec fn holds(&self, s: Seq<u8>) -> bool {
        &&& self.continuation_addr == (if link_of(s) != 0 {
            Some(link_of(s))
        } else {
            None
        })
        &&& self.size == size_of(s)
        &&& self.data@ == s.subrange(6, 512)
    }

    /// Loads the data sector stored at `addr`.
    pub fn load(addr: u32, drive: &Drive) -> (d: Self)
        ensures
            d.addr == addr,
            d.drive_index == drive.drive_index as usize,
            d.holds(sector_at(drive@, addr)),
    {
        let mut buf = [0u8; 512];
        drive.read(addr, &mut buf);
        let ghost s = sector_at(drive@, addr);
        assert(buf@ =~= s);
        let continuation_addr = u32_from_be(buf[0], buf[1], buf[2], buf[3]);
        let continuation_addr_option = if continuation_addr != 0 {
            Some(continuation_addr)
        } else {
            None
        };
        let size = u16_from_be(buf[4], buf[5]);
        let mut data = [0u8; 506];
        let mut i: usize = 0;
        while i < 506
            invariant
                i <= 506,
                forall|j: int| 0 <= j < i ==> data[j] == buf[j + 6],
            decreases 506 - i,
        {
            data[i] = buf[i + 6];
            i += 1;
        }
        assert(data@ =~= s.subrange(6, 512));
        DataSector {
            addr,
            continuation_addr: continuation_addr_option,
            size,
            data,
            drive_index: drive.drive_index as usize,
        }
    }

    /// Writes `bytes` as the payload of the sector at `addr`, with no
    /// continuation, and returns the sector as it then reads.
    pub fn new(addr: u32, drive: &mut Drive, bytes: Vec<u8>) -> (d: Self)
        requires
            bytes@.len() <= 506,
        ensures
            d.addr == addr,
            d.drive_index == old(drive).drive_index as usize,
            d.holds(sector_at(final(drive)@, addr)),
            wrote(old(drive)@, final(drive)@, addr, data_image(0, bytes@.len() as u16, filled(bytes@))),
            final(drive).same_identity(*old(drive)),
    {
        let mut buf = [0u8; 512];
        let size = bytes.len() as u16;
        let sz = u16_to_be(size);
        buf[4] = sz[0];
        buf[5] = sz[1];
        let mut i: usize = 0;
        while i < bytes.len()
            invariant
                i <= bytes@.len() <= 506,
                buf[4] == sz[0],
                buf[5] == sz[1],
                forall|j: int| 0 <= j < 4 ==> buf[j] == 0,
                forall|j: int| 6 <= j < 6 + i ==> buf[j] == bytes@[j - 6],
                forall|j: int| 6 + i <= j < 512 ==> buf[j] == 0,
            decreases bytes@.len() - i,
        {
            buf[6 + i] = bytes[i];
            i += 1;
        }
        proof {
            lemma_zero_bytes();
            assert(buf@ =~= data_image(0, size, filled(bytes@)));
        }
        drive.write(addr, &buf);
        Self::load(addr, drive)
    }

    /// Clears the block and zeroes its sector.
    pub fn remove(&mut self, drive: &mut Drive)
        ensures
            final(self).addr == old(self).addr,
            final(self).drive_index == old(self).drive_index,
            final(self).continuation_addr.is_none(),
            final(self).size == 0,
            forall|i: int| 0 <= i < 506 ==> final(self).data[i] == 0,
            wrote(old(drive)@, final(drive)@, old(self).addr, blank()),
            final(drive).same_identity(*old(drive)),
    {
        self.continuation_addr = None;
        self.data = [0u8; 506];
        self.size = 0;
        proof {
            lemma_zero_bytes();
            assert(self.image() =~= blank());
        }
        self.update_physical_drive(drive);
    }

    /// Writes the block to its sector.
    pub fn update_physical_drive(&self, drive: &mut Drive)
        ensures
            wrote(old(drive)@, final(drive)@, self.addr, self.image()),
            final(drive).same_identity(*old(drive)),
    {
        let mut buf = [0u8; 512];
        let link: u32 = match self.continuation_addr {
            Some(continuation) => continuation,
            None => 0,
        };
        let l = u32_to_be(link);
        buf[0] = l[0];
        buf[1] = l[1];
        buf[2] = l[2];
        buf[3] = l[3];
        let sz = u16_to_be(self.size);
        buf[4] = sz[0];
        buf[5] = sz[1];
        let mut index: usize = 6;
        while index < 512
            invariant
                6 <= index <= 512,
                forall|j: int| 0 <= j < 4 ==> buf[j] == l[j],
                buf[4] == sz[0],
                buf[5] == sz[1],
                forall|j: int| 6 <= j < index ==> buf[j] == self.data[j - 6],
            decreases 512 - index,
        {
            buf[index] = self.data[index - 6];
            index += 1;
        }
        assert(buf@ =~= self.image());
        drive.write(self.addr, &buf);
    }
}

} // verus!

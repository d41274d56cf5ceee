use pogostick::ata::Drive;
use pogostick::bits::{u16_from_be, u16_to_be, u32_from_be, u32_to_be};
use pogostick::fs::{DataSector, FileTableSector, FileType};

fn drive(sectors: u32) -> Drive {
    Drive::new(0, 3, String::from("m"), String::from("s"), sectors)
}

fn raw(drive: &Drive, block: u32) -> [u8; 512] {
    let mut buf = [0u8; 512];
    drive.read(block, &mut buf);
    buf
}

#[test]
fn address_bytes_are_big_endian() {
    assert_eq!(u32_to_be(0x01020304), [1, 2, 3, 4]);
    assert_eq!(u32_from_be(1, 2, 3, 4), 0x01020304);
    assert_eq!(u32_to_be(0xFFEEDDCC), [0xFF, 0xEE, 0xDD, 0xCC]);
    assert_eq!(u32_from_be(0xFF, 0xEE, 0xDD, 0xCC), 0xFFEEDDCC);
    assert_eq!(u16_to_be(0x01FA), [0x01, 0xFA]);
    assert_eq!(u16_from_be(0x01, 0xFA), 506);
}

#[test]
fn continuation_address_survives_reload() {
    let mut d = drive(16);
    let mut table = FileTableSector::new(3, &mut d, None);
    table.set_continuation(0x01020304, &mut d);
    assert_eq!(&raw(&d, 3)[..4], &[1, 2, 3, 4]);
    let loaded = FileTableSector::load(3, &d, None);
    assert_eq!(loaded.continuation_addr, Some(0x01020304));
    let mut data = DataSector::new(4, &mut d, vec![9]);
    data.continuation_addr = Some(0x01020304);
    data.update_physical_drive(&mut d);
    assert_eq!(&raw(&d, 4)[..4], &[1, 2, 3, 4]);
    assert_eq!(DataSector::load(4, &d).continuation_addr, Some(0x01020304));
}

#[test]
fn table_layout_on_disk() {
    let mut d = drive(16);
    let mut table = FileTableSector::new(7, &mut d, Some(String::from("dir")));
    assert!(!table.is_deleted);
    assert_eq!(table.drive_index, 3);
    table.add_file("ab", 0x0A0B0C0D, &mut d);
    table.add_dir("sub", 0x00000102, &mut d);
    let s = raw(&d, 7);
    assert_eq!(&s[..4], &[0, 0, 0, 0]);
    assert_eq!(&s[4..7], b"ab\0");
    assert!(s[6..62].iter().all(|b| *b == 0));
    assert_eq!(s[62], 0);
    assert_eq!(&s[63..67], &[0x0A, 0x0B, 0x0C, 0x0D]);
    assert_eq!(&s[67..71], b"sub\0");
    assert_eq!(s[67 + 58], 1);
    assert_eq!(&s[67 + 59..67 + 63], &[0, 0, 1, 2]);
    assert!(s[130..508].iter().all(|b| *b == 0));
    assert_eq!(&s[508..], b"POGO");
}

#[test]
fn table_reads_back_what_was_stored() {
    let mut d = drive(16);
    let mut table = FileTableSector::new(7, &mut d, None);
    table.add_file("one", 11, &mut d);
    table.add_dir("two", 12, &mut d);
    table.add_file("two", 13, &mut d);
    let loaded = FileTableSector::load(7, &d, Some(String::from("here")));
    assert_eq!(loaded.addr, 7);
    assert_eq!(loaded.directory_name.as_deref(), Some("here"));
    assert_eq!(loaded.continuation_addr, None);
    assert_eq!(loaded.files.len(), 3);
    assert!(matches!(&loaded.files[0], FileType::File(f) if f.name == "one" && f.entry_addr == 11 && f.drive_index == 3));
    assert!(matches!(&loaded.files[1], FileType::Dir(x) if x.name == "two" && x.entry_addr == 12));
    assert!(matches!(&loaded.files[2], FileType::File(f) if f.name == "two" && f.entry_addr == 13));
    assert_eq!(loaded.get_file("two").map(|f| f.entry_addr), Some(13));
    assert_eq!(loaded.get_dir("two").map(|x| x.entry_addr), Some(12));
    assert!(loaded.get_dir("one").is_none());
    assert!(loaded.get_file("three").is_none());
    assert!(loaded.contains_object("one"));
    assert!(loaded.contains_object("two"));
    assert!(!loaded.contains_object("three"));
    assert_eq!(loaded.position("two", false), Some(2));
    assert_eq!(loaded.position("two", true), Some(1));
    assert_eq!(loaded.position("one", true), None);
}

#[test]
fn empty_slots_are_skipped_and_names_end_at_nul() {
    let mut d = drive(8);
    let mut s = [0u8; 512];
    s[4 + 63..4 + 63 + 5].copy_from_slice(b"later");
    s[4 + 63 + 58] = 1;
    s[4 + 63 + 62] = 5;
    s[4 + 5 * 63..4 + 5 * 63 + 58].copy_from_slice(&[b'z'; 58]);
    s[4 + 5 * 63 + 59] = 1;
    s[4..8].copy_from_slice(b"void");
    d.write(2, &s);
    let loaded = FileTableSector::load(2, &d, None);
    assert!(loaded.is_deleted);
    assert_eq!(loaded.files.len(), 2);
    assert!(matches!(&loaded.files[0], FileType::Dir(x) if x.name == "later" && x.entry_addr == 5));
    assert!(matches!(&loaded.files[1], FileType::File(f) if f.name == "z".repeat(58) && f.entry_addr == 0x01000000));
}

#[test]
fn removed_table_is_all_zero() {
    let mut d = drive(16);
    let mut table = FileTableSector::new(7, &mut d, None);
    table.add_file("one", 11, &mut d);
    table.remove(&mut d);
    assert!(table.is_deleted);
    assert!(table.files.is_empty());
    assert!(raw(&d, 7).iter().all(|b| *b == 0));
    assert!(FileTableSector::load(7, &d, None).is_deleted);
}

#[test]
fn data_layout_on_disk() {
    let mut d = drive(16);
    let bytes: Vec<u8> = (0..506).map(|i| (i % 200) as u8 + 1).collect();
    let block = DataSector::new(6, &mut d, bytes.clone());
    assert_eq!(block.addr, 6);
    assert_eq!(block.size, 506);
    assert_eq!(block.continuation_addr, None);
    assert_eq!(block.drive_index, 3);
    assert_eq!(&block.data[..], &bytes[..]);
    let s = raw(&d, 6);
    assert_eq!(&s[..6], &[0, 0, 0, 0, 0x01, 0xFA]);
    assert_eq!(&s[6..], &bytes[..]);
}

#[test]
fn drive_ignores_blocks_past_its_end() {
    let mut d = drive(4);
    let mut buf = [0xAAu8; 512];
    d.read(4, &mut buf);
    assert!(buf.iter().all(|b| *b == 0xAA));
    d.write(4, &buf);
    d.write(9, &buf);
    assert!(d.image.is_empty());
    assert_eq!(d.sectors, 4);
    d.write(3, &buf);
    let mut back = [0u8; 512];
    d.read(3, &mut back);
    assert!(back.iter().all(|b| *b == 0xAA));
    assert_eq!(d.image.len(), 1);
    d.write(2, &[0u8; 512]);
    assert_eq!(d.image.len(), 1);
    assert_eq!(d.free_sectors(), 2);
    assert_eq!(d.find_available_sector(), Some(2));
}

#[test]
fn allocator_skips_sector_zero() {
    let mut d = drive(3);
    let full = [1u8; 512];
    d.write(1, &full);
    d.write(2, &full);
    assert_eq!(d.find_available_sector(), None);
    assert_eq!(d.free_sectors(), 0);
    assert_eq!(drive(0).find_available_sector(), None);
    assert_eq!(drive(1).find_available_sector(), None);
}

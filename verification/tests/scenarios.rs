use pogostick::ata::Drive;
use pogostick::fs::{create_fs, detect_fs, is_mounted, FileSystem};
use pogostick::ExitCode;

fn blank_drive(sectors: u32) -> Drive {
    Drive::new(1, 0, String::from("MODEL"), String::from("SERIAL"), sectors)
}

fn formatted(sectors: u32) -> (Drive, FileSystem) {
    let mut drive = blank_drive(sectors);
    let fs = create_fs(&mut drive).expect("a drive with sectors can be formatted");
    (drive, fs)
}

fn path(parts: &[&str]) -> Vec<String> {
    parts.iter().map(|p| p.to_string()).collect()
}

fn sector(drive: &Drive, block: u32) -> [u8; 512] {
    let mut buf = [0u8; 512];
    drive.read(block, &mut buf);
    buf
}

fn used_sectors(drive: &Drive) -> Vec<u32> {
    (0..drive.sectors).filter(|a| sector(drive, *a).iter().any(|b| *b != 0)).collect()
}

fn pattern(len: usize) -> Vec<u8> {
    (0..len).map(|i| (i % 251) as u8 + 1).collect()
}

fn link(s: &[u8; 512]) -> u32 {
    u32::from_be_bytes([s[0], s[1], s[2], s[3]])
}

fn table_chain(drive: &Drive, head: u32) -> Vec<u32> {
    let mut chain = vec![head];
    let mut cur = head;
    while link(&sector(drive, cur)) != 0 {
        cur = link(&sector(drive, cur));
        chain.push(cur);
    }
    chain
}

#[test]
fn format_empty_drive() {
    let (drive, fs) = formatted(2048);
    assert_eq!(fs.entry_sector, 2047);
    let root = sector(&drive, 2047);
    assert_eq!(&root[508..512], b"POGO");
    assert!(root[..508].iter().all(|b| *b == 0));
    assert_eq!(fs.list_files(&drive, &path(&[])), Some(Vec::<String>::new()));
    assert!(is_mounted(&Some(fs)));
    assert!(!is_mounted(&None));
}

#[test]
fn format_needs_a_sector() {
    let mut drive = blank_drive(0);
    assert!(create_fs(&mut drive).is_none());
}

#[test]
fn write_then_read_small_file() {
    let (mut drive, mut fs) = formatted(2048);
    assert_eq!(fs.write_file(&mut drive, &path(&["hello"]), b"hi".to_vec()), ExitCode::Success);
    let file = fs.get_file(&drive, &path(&["hello"])).expect("the file was just written");
    assert_eq!(file.name, "hello");
    assert_eq!(file.entry_addr, 2046);
    assert_eq!(file.read(&drive), b"hi".to_vec());
    assert_eq!(fs.list_files(&drive, &path(&[])), Some(vec![String::from("hello")]));
    assert_eq!(fs.entry_table.files.len(), 1);
}

#[test]
fn file_in_directory_uses_two_data_sectors() {
    let (mut drive, mut fs) = formatted(2048);
    assert_eq!(fs.create_dir(&mut drive, &path(&["d"])), ExitCode::Success);
    let before = used_sectors(&drive);
    let bytes = pattern(1000);
    assert_eq!(fs.write_file(&mut drive, &path(&["d", "x"]), bytes.clone()), ExitCode::Success);
    let after = used_sectors(&drive);
    let fresh: Vec<u32> = after.iter().copied().filter(|a| !before.contains(a)).collect();
    assert_eq!(fresh.len(), 2);
    let file = fs.get_file(&drive, &path(&["d", "x"])).expect("the file was just written");
    let first = sector(&drive, file.entry_addr);
    assert_eq!(u16::from_be_bytes([first[4], first[5]]), 506);
    let second = sector(&drive, link(&first));
    assert_eq!(u16::from_be_bytes([second[4], second[5]]), 494);
    assert_eq!(link(&second), 0);
    assert_eq!(file.read(&drive), bytes);
    assert_eq!(fs.list_files(&drive, &path(&[])), Some(vec![String::from("d/")]));
    assert_eq!(fs.list_files(&drive, &path(&["d"])), Some(vec![String::from("x")]));
}

#[test]
fn directory_is_removed_only_when_empty() {
    let (mut drive, mut fs) = formatted(2048);
    assert_eq!(fs.create_dir(&mut drive, &path(&["d"])), ExitCode::Success);
    assert_eq!(fs.write_file(&mut drive, &path(&["d", "x"]), pattern(1000)), ExitCode::Success);
    let snapshot = drive.image.clone();
    assert_eq!(fs.delete_dir(&mut drive, &path(&["d"])), ExitCode::NotEmptyError);
    assert!(drive.image == snapshot);
    assert_eq!(fs.delete_file(&mut drive, &path(&["d", "x"])), ExitCode::Success);
    assert_eq!(fs.delete_dir(&mut drive, &path(&["d"])), ExitCode::Success);
    assert_eq!(used_sectors(&drive), vec![2047]);
    assert!(fs.get_dir(&drive, &path(&["d"])).is_none());
}

#[test]
fn nine_files_need_two_tables() {
    let (mut drive, mut fs) = formatted(2048);
    for i in 0..8 {
        assert_eq!(fs.write_file(&mut drive, &path(&[&format!("f{}", i)]), vec![i as u8 + 1]), ExitCode::Success);
        assert_eq!(table_chain(&drive, 2047).len(), 1);
    }
    assert_eq!(fs.write_file(&mut drive, &path(&["f8"]), vec![9]), ExitCode::Success);
    assert_eq!(table_chain(&drive, 2047).len(), 2);
    assert_eq!(fs.delete_file(&mut drive, &path(&["f3"])), ExitCode::Success);
    assert_eq!(table_chain(&drive, 2047).len(), 2);
    let names = fs.list_files(&drive, &path(&[])).expect("the root exists");
    assert_eq!(names, vec!["f0", "f1", "f2", "f4", "f5", "f6", "f7", "f8"]);
    for table in table_chain(&drive, 2047) {
        assert_eq!(&sector(&drive, table)[508..512], b"POGO");
    }
}

#[test]
fn seventeenth_entry_forces_third_table() {
    let (mut drive, mut fs) = formatted(2048);
    assert_eq!(fs.create_dir(&mut drive, &path(&["d"])), ExitCode::Success);
    let head = fs.get_dir(&drive, &path(&["d"])).expect("the directory was just created").entry_addr;
    for i in 0..16 {
        assert_eq!(fs.create_dir(&mut drive, &path(&["d", &format!("sub{}", i)])), ExitCode::Success);
        assert_eq!(table_chain(&drive, head).len(), if i < 8 { 1 } else { 2 });
    }
    assert_eq!(fs.write_file(&mut drive, &path(&["d", "last"]), vec![]), ExitCode::Success);
    assert_eq!(table_chain(&drive, head).len(), 3);
    assert_eq!(fs.list_files(&drive, &path(&["d"])).expect("the directory exists").len(), 17);
}

#[test]
fn missing_paths_are_not_found() {
    let (mut drive, mut fs) = formatted(2048);
    assert!(fs.get_file(&drive, &path(&["none"])).is_none());
    assert!(fs.get_dir(&drive, &path(&["none"])).is_none());
    assert!(fs.get_file(&drive, &path(&[])).is_none());
    let snapshot = drive.image.clone();
    assert_eq!(fs.write_file(&mut drive, &path(&["a", "b"]), b"x".to_vec()), ExitCode::NotFoundError);
    assert_eq!(fs.create_dir(&mut drive, &path(&["a", "b"])), ExitCode::NotFoundError);
    assert_eq!(fs.delete_file(&mut drive, &path(&["none"])), ExitCode::NotFoundError);
    assert_eq!(fs.delete_dir(&mut drive, &path(&["none"])), ExitCode::NotFoundError);
    assert_eq!(fs.rename(&mut drive, &path(&["none"]), "other"), ExitCode::NotFoundError);
    assert_eq!(fs.list_files(&drive, &path(&["none"])), None);
    assert!(drive.image == snapshot);
}

#[test]
fn detect_finds_formatted_drive() {
    let (drive, _) = formatted(64);
    let drives = vec![blank_drive(16), blank_drive(0), drive];
    let fs = detect_fs(&drives).expect("the third drive carries a filesystem");
    assert_eq!(fs.entry_sector, 63);
    assert_eq!(fs.drive_index, 0);
    assert!(fs.entry_table.files.is_empty());
    assert!(detect_fs(&vec![blank_drive(16)]).is_none());
    assert!(detect_fs(&Vec::new()).is_none());
}

fn data_sector(next: u32, payload: &[u8]) -> [u8; 512] {
    let mut s = [0u8; 512];
    s[..4].copy_from_slice(&next.to_be_bytes());
    s[4..6].copy_from_slice(&(payload.len() as u16).to_be_bytes());
    s[6..6 + payload.len()].copy_from_slice(payload);
    s
}

fn empty_table() -> [u8; 512] {
    let mut s = [0u8; 512];
    s[508..].copy_from_slice(b"POGO");
    s
}

fn slot(s: &[u8; 512], i: usize) -> (String, u8, u32) {
    let at = 4 + 63 * i;
    let name: Vec<u8> = s[at..at + 58].iter().copied().take_while(|b| *b != 0).collect();
    let addr = u32::from_be_bytes([s[at + 59], s[at + 60], s[at + 61], s[at + 62]]);
    (String::from_utf8(name).expect("names are ASCII"), s[at + 58], addr)
}

#[test]
fn two_full_runs_take_the_two_highest_sectors() {
    let (mut drive, mut fs) = formatted(2048);
    assert_eq!(fs.write_file(&mut drive, &path(&["f"]), vec![0xAB; 1012]), ExitCode::Success);
    assert!(sector(&drive, 2046) == data_sector(2045, &[0xAB; 506]));
    assert!(sector(&drive, 2045) == data_sector(0, &[0xAB; 506]));
    assert!(sector(&drive, 2044) == [0u8; 512]);
    let root = sector(&drive, 2047);
    assert_eq!(slot(&root, 0), (String::from("f"), 0, 2046));
    assert_eq!(slot(&root, 1).2, 0);
    assert_eq!(used_sectors(&drive), vec![2045, 2046, 2047]);
}

#[test]
fn thousand_bytes_in_a_directory() {
    let (mut drive, mut fs) = formatted(2048);
    assert_eq!(fs.create_dir(&mut drive, &path(&["d"])), ExitCode::Success);
    assert!(sector(&drive, 2046) == empty_table());
    assert_eq!(slot(&sector(&drive, 2047), 0), (String::from("d"), 1, 2046));
    assert_eq!(fs.write_file(&mut drive, &path(&["d", "x"]), vec![0x5A; 1000]), ExitCode::Success);
    assert!(sector(&drive, 2045) == data_sector(2044, &[0x5A; 506]));
    assert!(sector(&drive, 2044) == data_sector(0, &[0x5A; 494]));
    assert!(sector(&drive, 2043) == [0u8; 512]);
    assert_eq!(slot(&sector(&drive, 2046), 0), (String::from("x"), 0, 2045));
    assert_eq!(fs.delete_file(&mut drive, &path(&["d", "x"])), ExitCode::Success);
    assert_eq!(drive.find_available_sector(), Some(2045));
    assert_eq!(fs.delete_dir(&mut drive, &path(&["d"])), ExitCode::Success);
    for a in 2044..=2046 {
        assert!(sector(&drive, a) == [0u8; 512]);
    }
    assert_eq!(fs.list_files(&drive, &path(&[])), Some(Vec::<String>::new()));
}

#[test]
fn ninth_file_goes_into_a_linked_table() {
    let (mut drive, mut fs) = formatted(2048);
    for i in 1..=8u32 {
        assert_eq!(fs.write_file(&mut drive, &path(&[&format!("f{}", i)]), vec![1]), ExitCode::Success);
        assert_eq!(slot(&sector(&drive, 2047), i as usize - 1), (format!("f{}", i), 0, 2047 - i));
    }
    assert_eq!(fs.write_file(&mut drive, &path(&["f9"]), vec![1]), ExitCode::Success);
    let root = sector(&drive, 2047);
    assert_eq!(&root[..4], &[0, 0, 0x07, 0xF6]);
    for i in 1..=8u32 {
        assert_eq!(slot(&root, i as usize - 1), (format!("f{}", i), 0, 2047 - i));
    }
    let second = sector(&drive, 2038);
    assert_eq!(&second[..4], &[0, 0, 0, 0]);
    assert_eq!(&second[508..], b"POGO");
    assert_eq!(slot(&second, 0), (String::from("f9"), 0, 2037));
    assert_eq!(slot(&second, 1).2, 0);
    assert!(sector(&drive, 2037) == data_sector(0, &[1]));
}

#[test]
fn replaced_file_is_listed_once_and_is_no_directory() {
    let (mut drive, mut fs) = formatted(64);
    assert_eq!(fs.write_file(&mut drive, &path(&["a"]), vec![1; 700]), ExitCode::Success);
    assert_eq!(fs.write_file(&mut drive, &path(&["a"]), vec![2; 10]), ExitCode::Success);
    assert_eq!(fs.list_files(&drive, &path(&[])), Some(vec![String::from("a")]));
    assert_eq!(fs.write_file(&mut drive, &path(&["a", "b"]), vec![3]), ExitCode::NotFoundError);
    assert_eq!(fs.create_dir(&mut drive, &path(&["a", "b"])), ExitCode::NotFoundError);
    assert_eq!(used_sectors(&drive), vec![62, 63]);
}

#[test]
fn entry_goes_into_the_first_table_with_a_free_slot() {
    let (mut drive, mut fs) = formatted(256);
    for i in 0..9 {
        assert_eq!(fs.write_file(&mut drive, &path(&[&format!("f{}", i)]), vec![7]), ExitCode::Success);
    }
    assert_eq!(fs.delete_file(&mut drive, &path(&["f2"])), ExitCode::Success);
    assert_eq!(fs.create_dir(&mut drive, &path(&["new"])), ExitCode::Success);
    let names = fs.list_files(&drive, &path(&[])).expect("the root exists");
    assert_eq!(names, vec!["f0", "f1", "f3", "f4", "f5", "f6", "f7", "new/", "f8"]);
    assert_eq!(table_chain(&drive, 255).len(), 2);
}

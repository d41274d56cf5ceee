use pogostick::ata::Drive;
use pogostick::fs::{create_fs, DataSector, File, FileSystem};
use pogostick::ExitCode;

fn fresh(sectors: u32) -> (Drive, FileSystem) {
    let mut drive = Drive::new(0, 1, String::from("disk"), String::from("0001"), sectors);
    let fs = create_fs(&mut drive).expect("a drive with sectors can be formatted");
    (drive, fs)
}

fn at(parts: &[&str]) -> Vec<String> {
    parts.iter().map(|p| p.to_string()).collect()
}

fn raw(drive: &Drive, block: u32) -> [u8; 512] {
    let mut buf = [0u8; 512];
    drive.read(block, &mut buf);
    buf
}

fn nonzero(drive: &Drive) -> Vec<u32> {
    (0..drive.sectors).filter(|a| raw(drive, *a).iter().any(|b| *b != 0)).collect()
}

fn contents(len: usize) -> Vec<u8> {
    (0..len).map(|i| (i * 7 % 253) as u8 + 1).collect()
}

fn chain_of(drive: &Drive, first: u32) -> Vec<u32> {
    let mut chain = vec![first];
    let mut cur = raw(drive, first);
    while u32::from_be_bytes([cur[0], cur[1], cur[2], cur[3]]) != 0 {
        let next = u32::from_be_bytes([cur[0], cur[1], cur[2], cur[3]]);
        chain.push(next);
        cur = raw(drive, next);
    }
    chain
}

#[test]
fn contents_of_any_length_read_back() {
    for len in [0usize, 1, 2, 505, 506, 507, 1011, 1012, 1013, 5060, 7001] {
        let (mut drive, mut fs) = fresh(64);
        let bytes = contents(len);
        assert_eq!(fs.write_file(&mut drive, &at(&["data"]), bytes.clone()), ExitCode::Success);
        let file = fs.get_file(&drive, &at(&["data"])).expect("the file was just written");
        assert_eq!(file.read(&drive), bytes, "length {}", len);
    }
}

#[test]
fn file_takes_fewest_sectors() {
    for (len, blocks) in [(0usize, 0usize), (1, 1), (506, 1), (507, 2), (1012, 2), (1013, 3), (5060, 10), (5061, 11)] {
        let (mut drive, mut fs) = fresh(64);
        let before = nonzero(&drive);
        assert_eq!(fs.write_file(&mut drive, &at(&["f"]), contents(len)), ExitCode::Success);
        let after = nonzero(&drive);
        assert_eq!(after.len() - before.len(), blocks, "length {}", len);
        assert_eq!(drive.free_sectors() as usize, 62 - blocks);
        assert_eq!(fs.list_files(&drive, &at(&[])), Some(vec![String::from("f")]));
        let file = fs.get_file(&drive, &at(&["f"])).expect("the file was just written");
        assert_eq!(chain_of(&drive, file.entry_addr).len(), blocks.max(1));
    }
}

#[test]
fn sectors_are_taken_from_the_top() {
    let (mut drive, mut fs) = fresh(32);
    assert_eq!(fs.write_file(&mut drive, &at(&["f"]), contents(1200)), ExitCode::Success);
    let file = fs.get_file(&drive, &at(&["f"])).expect("the file was just written");
    assert_eq!(chain_of(&drive, file.entry_addr), vec![30, 29, 28]);
    assert_eq!(drive.find_available_sector(), Some(27));
}

#[test]
fn second_delete_finds_nothing() {
    let (mut drive, mut fs) = fresh(64);
    assert_eq!(fs.write_file(&mut drive, &at(&["keep"]), contents(700)), ExitCode::Success);
    assert_eq!(fs.write_file(&mut drive, &at(&["gone"]), contents(1600)), ExitCode::Success);
    assert_eq!(fs.delete_file(&mut drive, &at(&["gone"])), ExitCode::Success);
    let snapshot = drive.image.clone();
    assert_eq!(fs.delete_file(&mut drive, &at(&["gone"])), ExitCode::NotFoundError);
    assert!(drive.image == snapshot);
    assert!(fs.get_file(&drive, &at(&["gone"])).is_none());
    let kept = fs.get_file(&drive, &at(&["keep"])).expect("the other file stays");
    assert_eq!(kept.read(&drive), contents(700));
}

#[test]
fn deleted_sectors_are_free_again() {
    let (mut drive, mut fs) = fresh(64);
    assert_eq!(fs.write_file(&mut drive, &at(&["big"]), contents(3000)), ExitCode::Success);
    let file = fs.get_file(&drive, &at(&["big"])).expect("the file was just written");
    let chain = chain_of(&drive, file.entry_addr);
    assert_eq!(chain.len(), 6);
    assert_eq!(drive.free_sectors(), 62 - 6);
    assert_eq!(fs.delete_file(&mut drive, &at(&["big"])), ExitCode::Success);
    for a in &chain {
        assert!(raw(&drive, *a).iter().all(|b| *b == 0));
    }
    assert_eq!(drive.free_sectors(), 62);
    assert_eq!(drive.find_available_sector(), Some(62));
    assert_eq!(fs.list_files(&drive, &at(&[])), Some(Vec::<String>::new()));
}

#[test]
fn writing_an_existing_name_replaces_the_file() {
    let (mut drive, mut fs) = fresh(64);
    assert_eq!(fs.write_file(&mut drive, &at(&["note"]), contents(1500)), ExitCode::Success);
    assert_eq!(fs.write_file(&mut drive, &at(&["note"]), b"short".to_vec()), ExitCode::Success);
    assert_eq!(fs.list_files(&drive, &at(&[])), Some(vec![String::from("note")]));
    let file = fs.get_file(&drive, &at(&["note"])).expect("the file was just written");
    assert_eq!(file.read(&drive), b"short".to_vec());
    assert_eq!(nonzero(&drive).len(), 2);
}

#[test]
fn full_disk_is_an_error_and_writes_nothing() {
    let (mut drive, mut fs) = fresh(5);
    let snapshot = drive.image.clone();
    assert_eq!(fs.write_file(&mut drive, &at(&["big"]), contents(3 * 506 + 1)), ExitCode::Error);
    assert!(drive.image == snapshot);
    assert_eq!(fs.write_file(&mut drive, &at(&["fits"]), contents(3 * 506)), ExitCode::Success);
    assert_eq!(drive.free_sectors(), 0);
    let snapshot = drive.image.clone();
    assert_eq!(fs.write_file(&mut drive, &at(&["more"]), vec![]), ExitCode::Error);
    assert_eq!(fs.create_dir(&mut drive, &at(&["dir"])), ExitCode::Error);
    assert!(drive.image == snapshot);
    let file = fs.get_file(&drive, &at(&["fits"])).expect("the file was written");
    assert_eq!(file.read(&drive), contents(3 * 506));
}

#[test]
fn names_that_cannot_be_stored_are_parse_errors() {
    let (mut drive, mut fs) = fresh(64);
    let snapshot = drive.image.clone();
    let long = "x".repeat(59);
    assert_eq!(fs.write_file(&mut drive, &at(&[&long]), vec![1]), ExitCode::ParseError);
    assert_eq!(fs.write_file(&mut drive, &at(&["caf\u{e9}"]), vec![1]), ExitCode::ParseError);
    assert_eq!(fs.write_file(&mut drive, &at(&["a\0b"]), vec![1]), ExitCode::ParseError);
    assert_eq!(fs.write_file(&mut drive, &at(&[]), vec![1]), ExitCode::ParseError);
    assert_eq!(fs.create_dir(&mut drive, &at(&[&long])), ExitCode::ParseError);
    assert_eq!(fs.create_dir(&mut drive, &at(&[])), ExitCode::ParseError);
    assert!(drive.image == snapshot);
    let longest = "y".repeat(58);
    assert_eq!(fs.write_file(&mut drive, &at(&[&longest]), vec![1, 2, 3]), ExitCode::Success);
    let file = fs.get_file(&drive, &at(&[&longest])).expect("a name of 58 characters fits");
    assert_eq!(file.name, longest);
    assert_eq!(file.read(&drive), vec![1, 2, 3]);
    assert_eq!(fs.rename(&mut drive, &at(&[&longest]), &long), ExitCode::ParseError);
}

#[test]
fn rename_changes_the_name_in_place() {
    let (mut drive, mut fs) = fresh(64);
    assert_eq!(fs.write_file(&mut drive, &at(&["documrnt"]), b"text".to_vec()), ExitCode::Success);
    assert_eq!(fs.create_dir(&mut drive, &at(&["dir"])), ExitCode::Success);
    assert_eq!(fs.rename(&mut drive, &at(&["documrnt"]), "document"), ExitCode::Success);
    assert_eq!(fs.rename(&mut drive, &at(&["dir"]), "folder"), ExitCode::Success);
    assert_eq!(fs.list_files(&drive, &at(&[])), Some(vec![String::from("document"), String::from("folder/")]));
    assert!(fs.get_file(&drive, &at(&["documrnt"])).is_none());
    let file = fs.get_file(&drive, &at(&["document"])).expect("the file bears its new name");
    assert_eq!(file.read(&drive), b"text".to_vec());
    assert!(fs.get_dir(&drive, &at(&["folder"])).is_some());
}

#[test]
fn nested_directories_resolve() {
    let (mut drive, mut fs) = fresh(128);
    assert_eq!(fs.create_dir(&mut drive, &at(&["a"])), ExitCode::Success);
    assert_eq!(fs.create_dir(&mut drive, &at(&["a", "b"])), ExitCode::Success);
    assert_eq!(fs.create_dir(&mut drive, &at(&["a", "b", "a"])), ExitCode::Success);
    assert_eq!(fs.write_file(&mut drive, &at(&["a", "b", "a", "leaf"]), contents(600)), ExitCode::Success);
    assert_eq!(fs.write_file(&mut drive, &at(&["a", "leaf"]), contents(10)), ExitCode::Success);
    assert_eq!(fs.list_files(&drive, &at(&["a"])), Some(vec![String::from("b/"), String::from("leaf")]));
    assert_eq!(fs.list_files(&drive, &at(&["a", "b", "a"])), Some(vec![String::from("leaf")]));
    let deep = fs.get_file(&drive, &at(&["a", "b", "a", "leaf"])).expect("the deep file exists");
    assert_eq!(deep.read(&drive), contents(600));
    let near = fs.get_file(&drive, &at(&["a", "leaf"])).expect("the near file exists");
    assert_eq!(near.read(&drive), contents(10));
    assert!(fs.get_file(&drive, &at(&["a", "b"])).is_none());
    assert!(fs.get_dir(&drive, &at(&["a", "leaf"])).is_none());
    assert_eq!(fs.list_files(&drive, &at(&["a", "leaf"])), None);
    let dir = fs.get_dir(&drive, &at(&["a", "b"])).expect("the directory exists");
    assert_eq!(dir.name, "b");
    assert_eq!(dir.drive_index, 1);
}

#[test]
fn deleted_directory_loses_its_signature() {
    let (mut drive, mut fs) = fresh(128);
    assert_eq!(fs.create_dir(&mut drive, &at(&["d"])), ExitCode::Success);
    for i in 0..9 {
        assert_eq!(fs.write_file(&mut drive, &at(&["d", &format!("f{}", i)]), vec![1]), ExitCode::Success);
    }
    let head = fs.get_dir(&drive, &at(&["d"])).expect("the directory exists").entry_addr;
    let tables = chain_of(&drive, head);
    assert_eq!(tables.len(), 2);
    for i in 0..9 {
        assert_eq!(fs.delete_file(&mut drive, &at(&["d", &format!("f{}", i)])), ExitCode::Success);
    }
    for t in &tables {
        assert_eq!(&raw(&drive, *t)[508..512], b"POGO");
    }
    assert_eq!(fs.delete_dir(&mut drive, &at(&["d"])), ExitCode::Success);
    for t in &tables {
        assert!(raw(&drive, *t).iter().all(|b| *b == 0));
    }
    assert_eq!(nonzero(&drive), vec![127]);
}

#[test]
fn read_follows_a_hand_built_chain() {
    let mut drive = Drive::new(0, 0, String::new(), String::new(), 16);
    let mut first = DataSector::new(5, &mut drive, vec![1, 2, 3]);
    DataSector::new(9, &mut drive, vec![4, 5]);
    first.continuation_addr = Some(9);
    first.update_physical_drive(&mut drive);
    let file = File { name: String::from("f"), drive_index: 0, entry_addr: 5 };
    assert_eq!(file.read(&drive), vec![1, 2, 3, 4, 5]);
    let loaded = DataSector::load(5, &drive);
    assert_eq!(loaded.continuation_addr, Some(9));
    assert_eq!(loaded.size, 3);
    assert_eq!(&loaded.data[..4], &[1, 2, 3, 0]);
    let mut second = DataSector::load(9, &drive);
    second.remove(&mut drive);
    assert!(raw(&drive, 9).iter().all(|b| *b == 0));
    assert_eq!(file.read(&drive), vec![1, 2, 3]);
}

#[test]
fn read_stops_on_a_chain_that_loops() {
    let mut drive = Drive::new(0, 0, String::new(), String::new(), 4);
    let mut a = DataSector::new(1, &mut drive, vec![7]);
    let mut b = DataSector::new(2, &mut drive, vec![8]);
    a.continuation_addr = Some(2);
    a.update_physical_drive(&mut drive);
    b.continuation_addr = Some(1);
    b.update_physical_drive(&mut drive);
    let file = File { name: String::from("loop"), drive_index: 0, entry_addr: 1 };
    assert_eq!(file.read(&drive), vec![7, 8, 7, 8]);
}

#[test]
fn empty_file_leaves_its_sector_free() {
    let (mut drive, mut fs) = fresh(16);
    assert_eq!(fs.write_file(&mut drive, &at(&["empty"]), vec![]), ExitCode::Success);
    let empty = fs.get_file(&drive, &at(&["empty"])).expect("the file was just written");
    assert_eq!(empty.read(&drive), Vec::<u8>::new());
    assert!(raw(&drive, empty.entry_addr).iter().all(|b| *b == 0));
    assert_eq!(drive.find_available_sector(), Some(empty.entry_addr));
    assert_eq!(fs.write_file(&mut drive, &at(&["other"]), vec![5, 6]), ExitCode::Success);
    let other = fs.get_file(&drive, &at(&["other"])).expect("the file was just written");
    assert_eq!(other.entry_addr, empty.entry_addr);
    assert_eq!(other.read(&drive), vec![5, 6]);
}

#[test]
fn missing_parent_comes_before_a_bad_name() {
    let (mut drive, mut fs) = fresh(64);
    let snapshot = drive.image.clone();
    let long = "x".repeat(59);
    assert_eq!(fs.write_file(&mut drive, &at(&["none", &long]), vec![1]), ExitCode::NotFoundError);
    assert_eq!(fs.write_file(&mut drive, &at(&["none", "caf\u{e9}"]), vec![1]), ExitCode::NotFoundError);
    assert_eq!(fs.create_dir(&mut drive, &at(&["none", &long])), ExitCode::NotFoundError);
    assert_eq!(fs.create_dir(&mut drive, &at(&["none", "a\0b"])), ExitCode::NotFoundError);
    assert_eq!(fs.write_file(&mut drive, &at(&[&long]), vec![1]), ExitCode::ParseError);
    assert!(drive.image == snapshot);
    assert_eq!(fs.write_file(&mut drive, &at(&["f"]), vec![1]), ExitCode::Success);
    let snapshot = drive.image.clone();
    assert_eq!(fs.write_file(&mut drive, &at(&["f", &long]), vec![1]), ExitCode::NotFoundError);
    assert_eq!(fs.create_dir(&mut drive, &at(&["f", "sub"])), ExitCode::NotFoundError);
    assert_eq!(fs.rename(&mut drive, &at(&["none"]), &long), ExitCode::NotFoundError);
    assert_eq!(fs.rename(&mut drive, &at(&["f"]), &long), ExitCode::ParseError);
    assert!(drive.image == snapshot);
}

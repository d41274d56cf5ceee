use pogostick::ata::Drive;
use pogostick::fs::{create_fs, FileSystem};
use pogostick::ExitCode;
use std::collections::BTreeMap;

/// A directory tree kept the plain way, to hold the filesystem against.
#[derive(Default)]
struct Folder {
    files: BTreeMap<String, Vec<u8>>,
    folders: BTreeMap<String, Folder>,
}

impl Folder {
    fn at(&mut self, path: &[String]) -> Option<&mut Folder> {
        match path.split_first() {
            None => Some(self),
            Some((first, rest)) => self.folders.get_mut(first)?.at(rest),
        }
    }

    fn paths(&self, here: &mut Vec<String>, out: &mut Vec<Vec<String>>) {
        out.push(here.clone());
        for (name, folder) in &self.folders {
            here.push(name.clone());
            folder.paths(here, out);
            here.pop();
        }
    }
}

struct Dice(u64);

impl Dice {
    fn roll(&mut self, sides: usize) -> usize {
        self.0 = self.0.wrapping_mul(6364136223846793005).wrapping_add(1442695040888963407);
        ((self.0 >> 33) as usize) % sides
    }
}

fn join(dir: &[String], name: &str) -> Vec<String> {
    let mut path = dir.to_vec();
    path.push(name.to_string());
    path
}

fn blocks(len: usize) -> usize {
    (len + 505) / 506
}

#[test]
fn filesystem_agrees_with_a_plain_tree() {
    let mut drive = Drive::new(0, 0, String::new(), String::new(), 512);
    let mut fs = create_fs(&mut drive).expect("a drive with sectors can be formatted");
    let mut tree = Folder::default();
    let mut dice = Dice(0x5eed);
    let names = ["a", "b", "c", "d", "e", "f", "g", "h", "i", "j", "k", "l"];
    let mut most = 0;

    for round in 0..1500 {
        let mut all = Vec::new();
        tree.paths(&mut Vec::new(), &mut all);
        let dir = all[dice.roll(all.len())].clone();
        let name = names[dice.roll(names.len())].to_string();
        let path = join(&dir, &name);
        let folder = tree.at(&dir).expect("the model holds the directory it listed");
        let is_file = folder.files.contains_key(&name);
        let is_folder = folder.folders.contains_key(&name);
        match dice.roll(6) {
            0 | 1 => {
                if is_folder {
                    continue;
                }
                let len = [1, 2, 100, 506, 507, 1500][dice.roll(6)];
                let bytes: Vec<u8> = (0..len).map(|i| ((i + round) % 255) as u8 + 1).collect();
                let code = fs.write_file(&mut drive, &path, bytes.clone());
                if code == ExitCode::Success {
                    folder.files.insert(name, bytes);
                } else {
                    assert_eq!(code, ExitCode::Error, "round {}", round);
                    folder.files.remove(&name);
                }
            }
            2 => {
                if is_file || is_folder {
                    continue;
                }
                let code = fs.create_dir(&mut drive, &path);
                if code == ExitCode::Success {
                    folder.folders.insert(name, Folder::default());
                } else {
                    assert_eq!(code, ExitCode::Error, "round {}", round);
                }
            }
            3 => {
                let code = fs.delete_file(&mut drive, &path);
                assert_eq!(code == ExitCode::Success, is_file, "round {}", round);
                assert!(code == ExitCode::Success || code == ExitCode::NotFoundError);
                folder.files.remove(&name);
            }
            4 => {
                let code = fs.delete_dir(&mut drive, &path);
                let empty = folder.folders.get(&name).map(|f| f.files.is_empty() && f.folders.is_empty());
                match empty {
                    None => assert_eq!(code, ExitCode::NotFoundError, "round {}", round),
                    Some(false) => assert_eq!(code, ExitCode::NotEmptyError, "round {}", round),
                    Some(true) => {
                        assert_eq!(code, ExitCode::Success, "round {}", round);
                        folder.folders.remove(&name);
                    }
                }
            }
            _ => {
                let new_name = names[dice.roll(names.len())].to_string();
                if folder.files.contains_key(&new_name) || folder.folders.contains_key(&new_name) {
                    continue;
                }
                let code = fs.rename(&mut drive, &path, &new_name);
                if let Some(bytes) = folder.files.remove(&name) {
                    assert_eq!(code, ExitCode::Success, "round {}", round);
                    folder.files.insert(new_name, bytes);
                } else if let Some(moved) = folder.folders.remove(&name) {
                    assert_eq!(code, ExitCode::Success, "round {}", round);
                    folder.folders.insert(new_name, moved);
                } else {
                    assert_eq!(code, ExitCode::NotFoundError, "round {}", round);
                }
            }
        }

        if round % 25 == 0 {
            let mut all = Vec::new();
            tree.paths(&mut Vec::new(), &mut all);
            let mut used = 1;
            for dir in &all {
                let folder = tree.at(dir).expect("the model holds the directory it listed");
                let mut expected: Vec<String> = folder.files.keys().cloned().collect();
                expected.extend(folder.folders.keys().map(|n| format!("{}/", n)));
                expected.sort();
                let mut listed = fs.list_files(&drive, dir).expect("the directory exists");
                listed.sort();
                assert_eq!(listed, expected, "round {} directory {:?}", round, dir);
                for (name, bytes) in &folder.files {
                    let file = fs.get_file(&drive, &join(dir, name)).expect("the file exists");
                    assert_eq!(&file.read(&drive), bytes, "round {} file {:?}/{}", round, dir, name);
                    used += blocks(bytes.len());
                }
                for name in names {
                    if !folder.files.contains_key(name) {
                        assert!(fs.get_file(&drive, &join(dir, name)).is_none());
                    }
                    if !folder.folders.contains_key(name) {
                        assert!(fs.get_dir(&drive, &join(dir, name)).is_none());
                    }
                }
                if !dir.is_empty() {
                    used += 1;
                }
            }
            let occupied = drive.sectors as usize - 1 - drive.free_sectors() as usize;
            assert!(occupied >= used, "round {}: {} sectors for {}", round, occupied, used);
            most = most.max(occupied);
        }
    }
    assert!(most > 20, "the test never filled the disk to speak of");

    empty(&mut fs, &mut drive, &mut tree, &mut Vec::new());
    assert_eq!(fs.list_files(&drive, &Vec::new()), Some(Vec::new()));
    let root_tables = {
        let mut count = 1;
        let mut buf = [0u8; 512];
        drive.read(fs.entry_sector, &mut buf);
        while u32::from_be_bytes([buf[0], buf[1], buf[2], buf[3]]) != 0 {
            drive.read(u32::from_be_bytes([buf[0], buf[1], buf[2], buf[3]]), &mut buf);
            count += 1;
        }
        count
    };
    assert_eq!(drive.sectors as usize - 1 - drive.free_sectors() as usize, root_tables);
}

/// Deletes everything below `here`, files first, then the folders from the
/// leaves up.
fn empty(fs: &mut FileSystem, drive: &mut Drive, folder: &mut Folder, here: &mut Vec<String>) {
    for name in folder.files.keys() {
        assert_eq!(fs.delete_file(drive, &join(here, name)), ExitCode::Success);
    }
    folder.files.clear();
    for (name, inner) in folder.folders.iter_mut() {
        here.push(name.clone());
        empty(fs, drive, inner, here);
        assert_eq!(fs.delete_dir(drive, here), ExitCode::Success);
        here.pop();
    }
    folder.folders.clear();
}

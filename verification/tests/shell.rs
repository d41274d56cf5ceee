use pogostick::ata::Drive;
use pogostick::boot::{after, first, Next, Stage};
use pogostick::conhost::{below, change_dir, create_command, disk_info, help_for, prompt, Command, Level};
use pogostick::fs::{create_fs, FileSystem};
use pogostick::text::{join_from, push_number, render, same, split_at};
use pogostick::ExitCode;

fn words(line: &str) -> Vec<String> {
    line.split(' ').map(|w| w.to_string()).collect()
}

fn strings(parts: &[&str]) -> Vec<String> {
    parts.iter().map(|p| p.to_string()).collect()
}

fn mounted(sectors: u32) -> (Drive, Option<FileSystem>) {
    let mut drive = Drive::new(0, 0, String::from("QEMU HARDDISK"), String::from("QM00001"), sectors);
    let fs = create_fs(&mut drive);
    (drive, fs)
}

fn run(line: &str, fs: &mut Option<FileSystem>, drive: &mut Drive, path: &mut Vec<String>) -> (ExitCode, Vec<(Level, String)>) {
    let reply = create_command(&words(line)).execute(fs, drive, path).expect("the library runs this command");
    (reply.code, reply.lines.into_iter().map(|l| (l.level, l.text)).collect())
}

#[test]
fn command_lines_are_parsed() {
    assert!(matches!(create_command(&words("echo hello  world")), Command::Echo { text } if text == "hello  world"));
    assert!(matches!(create_command(&words("echo")), Command::Echo { text } if text.is_empty()));
    assert!(matches!(create_command(&words("cd docs")), Command::Cd { new_dir } if new_dir == "docs"));
    assert!(matches!(create_command(&words("clear")), Command::Clear));
    assert!(matches!(create_command(&words("disk")), Command::DiskInfo));
    assert!(matches!(create_command(&words("ls")), Command::ListFiles));
    assert!(matches!(create_command(&words("dir x")), Command::ListFiles));
    assert!(matches!(create_command(&words("mkdir d")), Command::CreateDir { name } if name == "d"));
    assert!(matches!(create_command(&words("wt f some text here")), Command::Write { name, text } if name == "f" && text == "some text here"));
    assert!(matches!(create_command(&words("wt f")), Command::Write { name, text } if name == "f" && text.is_empty()));
    assert!(matches!(create_command(&words("rt f")), Command::Read { name } if name == "f"));
    assert!(matches!(create_command(&words("rename a b")), Command::Rename { old_name, new_name } if old_name == "a" && new_name == "b"));
    assert!(matches!(create_command(&words("rm f")), Command::RemoveFile { name } if name == "f"));
    assert!(matches!(create_command(&words("rmdir d")), Command::RemoveDir { name } if name == "d"));
    assert!(matches!(create_command(&words("time")), Command::Time));
    assert!(matches!(create_command(&words("uptime")), Command::Uptime));
    assert!(matches!(create_command(&words("help ls")), Command::Help { command } if command == "ls"));
    assert!(matches!(create_command(&words("add 7 8")), Command::Add { operands: Some((a, b)) } if a == "7" && b == "8"));
    assert!(matches!(create_command(&words("add 7")), Command::Add { operands: None }));
    assert!(matches!(create_command(&words("add 7 8 9")), Command::Add { operands: None }));
    assert!(matches!(create_command(&words("format")), Command::Null));
    assert!(matches!(create_command(&words("")), Command::Null));
    assert!(matches!(create_command(&Vec::new()), Command::Null));
    for line in ["cd", "mkdir", "wt", "rt", "rm", "rmdir", "help", "rename", "rename a"] {
        assert!(matches!(create_command(&words(line)), Command::Incomplete), "{}", line);
    }
}

#[test]
fn help_texts() {
    assert_eq!(
        help_for("ls"),
        "help:            lists the files in the current directory\nusage:           ls|dir\nexample command: ls\nexample output:  no files in this directory"
    );
    assert_eq!(help_for("dir"), help_for("ls"));
    assert_eq!(help_for("nothing"), "");
    assert!(help_for("rename").starts_with("help:            renames a file at the given path\n"));
    assert!(help_for("help").ends_with("example output:  you're reading it"));
    assert_eq!(create_command(&words("add 1 2")).usage().lines().count(), 4);
    assert_eq!(Command::Incomplete.usage(), "");
}

#[test]
fn paths_are_split_and_joined() {
    assert_eq!(split_at("a/b/c", '/'), strings(&["a", "b", "c"]));
    assert_eq!(split_at("", '/'), strings(&[""]));
    assert_eq!(split_at("/a//", '/'), strings(&["", "a", "", ""]));
    assert_eq!(split_at("plain", '/'), strings(&["plain"]));
    assert_eq!(join_from(&strings(&["a", "b", "c"]), 0, ", "), "a, b, c");
    assert_eq!(join_from(&strings(&["a", "b", "c"]), 2, ", "), "c");
    assert_eq!(join_from(&strings(&["a", "b", "c"]), 3, ", "), "");
    assert_eq!(below(&strings(&["x"]), "y/z"), strings(&["x", "y", "z"]));
    assert!(same("abc", "abc"));
    assert!(!same("abc", "abd"));
    assert!(!same("abc", "ab"));
}

#[test]
fn working_directory_moves() {
    let here = strings(&["a", "b"]);
    assert_eq!(change_dir(&here, "c"), strings(&["a", "b", "c"]));
    assert_eq!(change_dir(&here, "c/d/"), strings(&["a", "b", "c", "d"]));
    assert_eq!(change_dir(&here, "/c"), strings(&["a", "b", "c"]));
    assert_eq!(change_dir(&here, ".."), strings(&["a"]));
    assert_eq!(change_dir(&here, "../"), strings(&["a"]));
    assert_eq!(change_dir(&Vec::new(), ".."), Vec::<String>::new());
    assert_eq!(change_dir(&here, ""), Vec::<String>::new());
    assert_eq!(change_dir(&here, "/"), Vec::<String>::new());
    assert_eq!(change_dir(&here, "//"), Vec::<String>::new());
    assert_eq!(change_dir(&here, "../c"), strings(&["a", "b", "..", "c"]));
    assert_eq!(prompt(&here), "/a/b/ ");
    assert_eq!(prompt(&Vec::new()), "/ ");
}

#[test]
fn numbers_and_dumps() {
    let mut text = String::from("n=");
    push_number(&mut text, 0);
    push_number(&mut text, 7);
    push_number(&mut text, 1203);
    push_number(&mut text, u64::MAX);
    assert_eq!(text, "n=07120318446744073709551615");
    assert_eq!(render(&b"hello".to_vec()), (String::from("hello"), true));
    assert_eq!(render(&"gr\u{fc}n".as_bytes().to_vec()), (String::from("gr\u{fc}n"), true));
    assert_eq!(render(&vec![1, 2, 3, 15, 16, 0xff]), (String::from("0102030f10ff"), false));
    assert_eq!(render(&vec![0xf9, 0xb4, 0xca]), (String::from("f9b4ca"), false));
    assert_eq!(render(&Vec::new()), (String::new(), true));
    let drive = Drive::new(0, 1, String::from("MODEL"), String::from("12345678"), 65536);
    assert_eq!(disk_info(&drive), "ATA 0: 1 MODEL 12345678 (32 MB)\n");
}

#[test]
fn shell_session() {
    let (mut drive, mut fs) = mounted(256);
    let mut path: Vec<String> = Vec::new();
    assert_eq!(run("ls", &mut fs, &mut drive, &mut path), (ExitCode::Success, vec![(Level::Plain, String::from("no files in this directory"))]));
    assert_eq!(run("mkdir docs", &mut fs, &mut drive, &mut path), (ExitCode::Success, vec![]));
    assert_eq!(run("cd docs", &mut fs, &mut drive, &mut path), (ExitCode::Success, vec![]));
    assert_eq!(path, strings(&["docs"]));
    assert_eq!(run("wt note hello world", &mut fs, &mut drive, &mut path), (ExitCode::Success, vec![(Level::Okay, String::from("successfully written file\n"))]));
    assert_eq!(run("rt note", &mut fs, &mut drive, &mut path), (ExitCode::Success, vec![(Level::Plain, String::from("hello world"))]));
    assert_eq!(run("rename note memo", &mut fs, &mut drive, &mut path), (ExitCode::Success, vec![]));
    assert_eq!(run("mkdir sub", &mut fs, &mut drive, &mut path), (ExitCode::Success, vec![]));
    assert_eq!(
        run("ls", &mut fs, &mut drive, &mut path),
        (ExitCode::Success, vec![(Level::Plain, String::from(" - memo")), (Level::Plain, String::from(" - sub/"))])
    );
    assert_eq!(run("rt note", &mut fs, &mut drive, &mut path), (ExitCode::NotFoundError, vec![]));
    assert_eq!(run("cd nowhere", &mut fs, &mut drive, &mut path), (ExitCode::NotFoundError, vec![]));
    assert_eq!(path, strings(&["docs"]));
    assert_eq!(run("cd ..", &mut fs, &mut drive, &mut path), (ExitCode::Success, vec![]));
    assert!(path.is_empty());
    assert_eq!(run("rmdir docs", &mut fs, &mut drive, &mut path), (ExitCode::NotEmptyError, vec![]));
    assert_eq!(run("rm docs/memo", &mut fs, &mut drive, &mut path), (ExitCode::Success, vec![]));
    assert_eq!(run("rmdir docs/sub", &mut fs, &mut drive, &mut path), (ExitCode::Success, vec![]));
    assert_eq!(run("rmdir docs", &mut fs, &mut drive, &mut path), (ExitCode::Success, vec![]));
    assert_eq!(run("ls", &mut fs, &mut drive, &mut path), (ExitCode::Success, vec![(Level::Plain, String::from("no files in this directory"))]));
    assert_eq!(run("mkdir a/b", &mut fs, &mut drive, &mut path), (ExitCode::Success, vec![]));
    assert_eq!(run("ls", &mut fs, &mut drive, &mut path), (ExitCode::Success, vec![(Level::Plain, String::from(" - a/b/"))]));
}

#[test]
fn shell_answers_without_a_filesystem() {
    let mut drive = Drive::new(0, 0, String::new(), String::new(), 8);
    let mut fs: Option<FileSystem> = None;
    let mut path: Vec<String> = Vec::new();
    for line in ["ls", "cd x", "mkdir x", "wt x y", "rt x", "rm x", "rmdir x", "rename x y"] {
        assert_eq!(run(line, &mut fs, &mut drive, &mut path), (ExitCode::NotMountedError, vec![]), "{}", line);
    }
    assert_eq!(run("echo hi there", &mut fs, &mut drive, &mut path), (ExitCode::Success, vec![(Level::Plain, String::from("hi there"))]));
    assert_eq!(run("bogus", &mut fs, &mut drive, &mut path), (ExitCode::InvalidCommandError, vec![]));
    assert_eq!(run("rt", &mut fs, &mut drive, &mut path), (ExitCode::ParseError, vec![]));
    assert_eq!(run("help rt", &mut fs, &mut drive, &mut path).1[0].1, help_for("rt"));
    for line in ["clear", "time", "uptime", "add 1 2", "disk"] {
        assert!(create_command(&words(line)).execute(&mut fs, &mut drive, &mut path).is_none(), "{}", line);
    }
    assert!(drive.image.is_empty());
}

#[test]
fn shell_shows_binary_files_as_hex() {
    let (mut drive, mut fs) = mounted(64);
    let mut path: Vec<String> = Vec::new();
    let mount = fs.as_mut().expect("the drive was formatted");
    assert_eq!(mount.write_file(&mut drive, &strings(&["bin"]), vec![0xf9, 0xb4, 0xca]), ExitCode::Success);
    assert_eq!(
        run("rt bin", &mut fs, &mut drive, &mut path),
        (
            ExitCode::Success,
            vec![
                (Level::Warn, String::from("cannot detect encoding, printing as hex\n\n")),
                (Level::Plain, String::from("f9b4ca")),
            ]
        )
    );
}

#[test]
fn boot_order() {
    let mut stage = first();
    let mut seen = vec![stage];
    while let Next::Run(next) = after(stage, true) {
        stage = next;
        seen.push(stage);
    }
    assert_eq!(
        seen,
        vec![
            Stage::Gdt,
            Stage::Idt,
            Stage::Pic,
            Stage::Interrupts,
            Stage::Timer,
            Stage::Heap,
            Stage::Disks,
            Stage::Filesystem
        ]
    );
    assert_eq!(after(Stage::Filesystem, true), Next::Done);
    assert_eq!(after(Stage::Filesystem, false), Next::Done);
    assert_eq!(after(Stage::Disks, false), Next::Run(Stage::Filesystem));
    assert_eq!(after(Stage::Timer, false), Next::Run(Stage::Heap));
    for vital in [Stage::Gdt, Stage::Idt, Stage::Pic, Stage::Interrupts, Stage::Heap] {
        assert_eq!(after(vital, false), Next::Halt);
    }
}

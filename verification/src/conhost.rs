//! The shell's rules: how a command line is read, what each command is
//! for, and how the working directory moves.
//!
//! Showing text and reading keys is left to whoever owns the console.

use crate::ata::Drive;
use crate::fs::layout::Entry;
use crate::fs::ops::{dir_created, dir_deleted, file_deleted, file_written, name_changed};
use crate::fs::tree::{dir_entries, file_bytes, label, lookup, resolve_dir};
use crate::fs::{listing, FileSystem, FileTableSector};
use crate::text::{decimal, hex_text, join_from, joined, push_number, render, same, split, split_at, views};
use crate::ExitCode;
use vstd::prelude::*;
use vstd::string::{StrSliceExecFns, StringExecFns};
use vstd::utf8::{decode_utf8, encode_utf8, valid_utf8};

verus! {

/// A command line, parsed.
#[derive(Clone, Debug)]
pub enum Command {
    /// Show the text.
    Echo { text: String },
    /// Show the time since boot.
    Uptime,
    /// Change the working directory.
    Cd { new_dir: String },
    /// Clear the screen.
    Clear,
    /// Show the date and time.
    Time,
    /// Add two numbers; the operands are kept as typed, and are missing
    /// unless exactly two were given.
    Add { operands: Option<(String, String)> },
    /// List the drives.
    DiskInfo,
    /// List the working directory.
    ListFiles,
    /// Rename a file or directory.
    Rename { old_name: String, new_name: String },
    /// Delete a file.
    RemoveFile { name: String },
    /// Delete an empty directory.
    RemoveDir { name: String },
    /// Write text to a file.
    Write { name: String, text: String },
    /// Show a file.
    Read { name: String },
    /// Create a directory.
    CreateDir { name: String },
    /// Show what a command is for.
    Help { command: String },
    /// A known command without the arguments it needs.
    Incomplete,
    /// No known command.
    Null,
}

/// A parsed command line, as plain values.
pub enum Parsed {
    Echo { text: Seq<char> },
    Uptime,
    Cd { new_dir: Seq<char> },
    Clear,
    Time,
    Add { operands: Option<(Seq<char>, Seq<char>)> },
    DiskInfo,
    ListFiles,
    Rename { old_name: Seq<char>, new_name: Seq<char> },
    RemoveFile { name: Seq<char> },
    RemoveDir { name: Seq<char> },
    Write { name: Seq<char>, text: Seq<char> },
    Read { name: Seq<char> },
    CreateDir { name: Seq<char> },
    Help { command: Seq<char> },
    Incomplete,
    Null,
}

impl View for Command {
    type V = Parsed;

    open spec fn view(&self) -> Parsed {
        match self {
            Command::Echo { text } => Parsed::Echo { text: text@ },
            Command::Uptime => Parsed::Uptime,
            Command::Cd { new_dir } => Parsed::Cd { new_dir: new_dir@ },
            Command::Clear => Parsed::Clear,
            Command::Time => Parsed::Time,
            Command::Add { operands } => Parsed::Add {
                operands: match operands {
                    Some((a, b)) => Some((a@, b@)),
                    None => None,
                },
            },
            Command::DiskInfo => Parsed::DiskInfo,
            Command::ListFiles => Parsed::ListFiles,
            Command::Rename { old_name, new_name } => Parsed::Rename { old_name: old_name@, new_name: new_name@ },
            Command::RemoveFile { name } => Parsed::RemoveFile { name: name@ },
            Command::RemoveDir { name } => Parsed::RemoveDir { name: name@ },
            Command::Write { name, text } => Parsed::Write { name: name@, text: text@ },
            Command::Read { name } => Parsed::Read { name: name@ },
            Command::CreateDir { name } => Parsed::CreateDir { name: name@ },
            Command::Help { command } => Parsed::Help { command: command@ },
            Command::Incomplete => Parsed::Incomplete,
            Command::Null => Parsed::Null,
        }
    }
}

/// What a command line means. `args` is the line split at blanks: the
/// command's name, then its arguments.
pub open spec fn parse(args: Seq<Seq<char>>) -> Parsed {
    if args.len() == 0 {
        Parsed::Null
    } else if args[0] == "cd"@ {
        if args.len() >= 2 {
            Parsed::Cd { new_dir: args[1] }
        } else {
            Parsed::Incomplete
        }
    } else if args[0] == "echo"@ {
        Parsed::Echo { text: joined(args.skip(1), " "@) }
    } else if args[0] == "clear"@ {
        Parsed::Clear
    } else if args[0] == "add"@ {
        Parsed::Add {
            operands: if args.len() == 3 {
                Some((args[1], args[2]))
            } else {
                None
            },
        }
    } else if args[0] == "disk"@ {
        Parsed::DiskInfo
    } else if args[0] == "ls"@ || args[0] == "dir"@ {
        Parsed::ListFiles
    } else if args[0] == "mkdir"@ {
        if args.len() >= 2 {
            Parsed::CreateDir { name: args[1] }
        } else {
            Parsed::Incomplete
        }
    } else if args[0] == "wt"@ {
        if args.len() >= 2 {
            Parsed::Write { name: args[1], text: joined(args.skip(2), " "@) }
        } else {
            Parsed::Incomplete
        }
    } else if args[0] == "rt"@ {
        if args.len() >= 2 {
            Parsed::Read { name: args[1] }
        } else {
            Parsed::Incomplete
        }
    } else if args[0] == "rename"@ {
        if args.len() >= 3 {
            Parsed::Rename { old_name: args[1], new_name: args[2] }
        } else {
            Parsed::Incomplete
        }
    } else if args[0] == "rm"@ {
        if args.len() >= 2 {
            Parsed::RemoveFile { name: args[1] }
        } else {
            Parsed::Incomplete
        }
    } else if args[0] == "rmdir"@ {
        if args.len() >= 2 {
            Parsed::RemoveDir { name: args[1] }
        } else {
            Parsed::Incomplete
        }
    } else if args[0] == "time"@ {
        Parsed::Time
    } else if args[0] == "uptime"@ {
        Parsed::Uptime
    } else if args[0] == "help"@ {
        if args.len() >= 2 {
            Parsed::Help { command: args[1] }
        } else {
            Parsed::Incomplete
        }
    } else {
        Parsed::Null
    }
}

/// Reads a command line that was split at blanks.
pub fn create_command(args: &Vec<String>) -> (command: Command)
    ensures
        command@ == parse(views(args@)),
{
    if args.len() == 0 {
        return Command::Null;
    }
    let name = args[0].as_str();
    let n = args.len();
    if same(name, "cd") {
        if n >= 2 {
            Command::Cd { new_dir: args[1].clone() }
        } else {
            Command::Incomplete
        }
    } else if same(name, "echo") {
        Command::Echo { text: join_from(args, 1, " ") }
    } else if same(name, "clear") {
        Command::Clear
    } else if same(name, "add") {
        if n == 3 {
            Command::Add { operands: Some((args[1].clone(), args[2].clone())) }
        } else {
            Command::Add { operands: None }
        }
    } else if same(name, "disk") {
        Command::DiskInfo
    } else if same(name, "ls") || same(name, "dir") {
        Command::ListFiles
    } else if same(name, "mkdir") {
        if n >= 2 {
            Command::CreateDir { name: args[1].clone() }
        } else {
            Command::Incomplete
        }
    } else if same(name, "wt") {
        if n >= 2 {
            Command::Write { name: args[1].clone(), text: join_from(args, 2, " ") }
        } else {
            Command::Incomplete
        }
    } else if same(name, "rt") {
        if n >= 2 {
            Command::Read { name: args[1].clone() }
        } else {
            Command::Incomplete
        }
    } else if same(name, "rename") {
        if n >= 3 {
            Command::Rename { old_name: args[1].clone(), new_name: args[2].clone() }
        } else {
            Command::Incomplete
        }
    } else if same(name, "rm") {
        if n >= 2 {
            Command::RemoveFile { name: args[1].clone() }
        } else {
            Command::Incomplete
        }
    } else if same(name, "rmdir") {
        if n >= 2 {
            Command::RemoveDir { name: args[1].clone() }
        } else {
            Command::Incomplete
        }
    } else if same(name, "time") {
        Command::Time
    } else if same(name, "uptime") {
        Command::Uptime
    } else if same(name, "help") {
        if n >= 2 {
            Command::Help { command: args[1].clone() }
        } else {
            Command::Incomplete
        }
    } else {
        Command::Null
    }
}

/// The help text of a parsed command line: four lines that say what the
/// command is for, how it is used, and an example with its output.
pub open spec fn usage_of(command: Parsed) -> Seq<char> {
    match command {
        Parsed::Echo { .. } => "help:            echos text to the console\nusage:           echo <text to echo>\nexample command: echo hello world\nexample output:  hello world"@,
        Parsed::Uptime => "help:            prints system uptime in seconds\nusage:           uptime\nexample command: uptime\nexample output:  100s"@,
        Parsed::Cd { .. } => "help:            changes directory to the given directory\nusage:           cd <new dir path or .. for up one>\nexample command: cd /\nexample output:  N/A"@,
        Parsed::Clear => "help:            clears the screen\nusage:           clear\nexample command: clear\nexample output:  N/A"@,
        Parsed::Time => "help:            gets the current time\nusage:           time\nexample command: time\nexample output:  13:50, Sunday 7 March 2021"@,
        Parsed::Add { .. } => "help:            adds two numbers\nusage:           add <first number> <second number>\nexample command: add 7 8\nexample output:  15"@,
        Parsed::DiskInfo => "help:            prints info about connected disks\nusage:           disk\nexample command: disk\nexample output:  ATA 0: 0 MODEL 12345678 (32 MB)"@,
        Parsed::ListFiles => "help:            lists the files in the current directory\nusage:           ls|dir\nexample command: ls\nexample output:  no files in this directory"@,
        Parsed::Rename { .. } => "help:            renames a file at the given path\nusage:           rename <path> <new name>\nexample command: rename documrnt document\nexample output:  N/A"@,
        Parsed::RemoveFile { .. } => "help:            removes a file from the disk\nusage:           remove <path>\nexample command: remove document\nexample output:  N/A"@,
        Parsed::RemoveDir { .. } => "help:            removes a directory from the disk\nusage:           remove <path>\nexample command: remove documents\nexample output:  N/A"@,
        Parsed::Write { .. } => "help:            writes text to a file\nusage:           wt <path> <text>\nexample command: wt document hello world\nexample output:  N/A"@,
        Parsed::Read { .. } => "help:            prints text from a UTF-8 file\nusage:           rt <path>\nexample command: rt document\nexample output:  hello world"@,
        Parsed::CreateDir { .. } => "help:            creates a directory at the given path\nusage:           mkdir <path>\nexample command: mkdir documents\nexample output:  N/A"@,
        Parsed::Help { .. } => "help:            shows help text for a given command\nusage:           help <command>\nexample command: help help\nexample output:  you're reading it"@,
        Parsed::Incomplete => ""@,
        Parsed::Null => ""@,
    }
}

impl Command {
    /// The help text of the command.
    pub fn usage(&self) -> (text: &'static str)
        ensures
            text@ == usage_of(self@),
    {
        match self {
            Command::Echo { .. } => "help:            echos text to the console\nusage:           echo <text to echo>\nexample command: echo hello world\nexample output:  hello world",
            Command::Uptime => "help:            prints system uptime in seconds\nusage:           uptime\nexample command: uptime\nexample output:  100s",
            Command::Cd { .. } => "help:            changes directory to the given directory\nusage:           cd <new dir path or .. for up one>\nexample command: cd /\nexample output:  N/A",
            Command::Clear => "help:            clears the screen\nusage:           clear\nexample command: clear\nexample output:  N/A",
            Command::Time => "help:            gets the current time\nusage:           time\nexample command: time\nexample output:  13:50, Sunday 7 March 2021",
            Command::Add { .. } => "help:            adds two numbers\nusage:           add <first number> <second number>\nexample command: add 7 8\nexample output:  15",
            Command::DiskInfo => "help:            prints info about connected disks\nusage:           disk\nexample command: disk\nexample output:  ATA 0: 0 MODEL 12345678 (32 MB)",
            Command::ListFiles => "help:            lists the files in the current directory\nusage:           ls|dir\nexample command: ls\nexample output:  no files in this directory",
            Command::Rename { .. } => "help:            renames a file at the given path\nusage:           rename <path> <new name>\nexample command: rename documrnt document\nexample output:  N/A",
            Command::RemoveFile { .. } => "help:            removes a file from the disk\nusage:           remove <path>\nexample command: remove document\nexample output:  N/A",
            Command::RemoveDir { .. } => "help:            removes a directory from the disk\nusage:           remove <path>\nexample command: remove documents\nexample output:  N/A",
            Command::Write { .. } => "help:            writes text to a file\nusage:           wt <path> <text>\nexample command: wt document hello world\nexample output:  N/A",
            Command::Read { .. } => "help:            prints text from a UTF-8 file\nusage:           rt <path>\nexample command: rt document\nexample output:  hello world",
            Command::CreateDir { .. } => "help:            creates a directory at the given path\nusage:           mkdir <path>\nexample command: mkdir documents\nexample output:  N/A",
            Command::Help { .. } => "help:            shows help text for a given command\nusage:           help <command>\nexample command: help help\nexample output:  you're reading it",
            Command::Incomplete => "",
            Command::Null => "",
        }
    }
}

/// The help text for the command of the given name: that of the command
/// line made of the name and enough arguments for any command.
pub fn help_for(command: &str) -> (text: &'static str)
    ensures
        text@ == usage_of(parse(seq![command@, "1"@, "2"@, "3"@])),
{
    let mut args: Vec<String> = Vec::new();
    args.push(command.to_owned());
    args.push("1".to_owned());
    args.push("2".to_owned());
    args.push("3".to_owned());
    assert(views(args@) =~= seq![command@, "1"@, "2"@, "3"@]);
    create_command(&args).usage()
}

/// A directory argument without one leading and one trailing `/`.
pub open spec fn stripped(dir: Seq<char>) -> Seq<char> {
    let front = if dir.len() > 0 && dir[0] == '/' {
        dir.drop_first()
    } else {
        dir
    };
    if front.len() > 0 && front.last() == '/' {
        front.drop_last()
    } else {
        front
    }
}

/// Where `cd` would lead from the working directory `path`: to the root
/// for an empty argument, one level up for `..`, and otherwise down along
/// the components of the argument.
pub open spec fn target(path: Seq<Seq<char>>, new_dir: Seq<char>) -> Seq<Seq<char>> {
    if stripped(new_dir).len() == 0 {
        Seq::empty()
    } else if stripped(new_dir) == ".."@ {
        if path.len() > 0 {
            path.drop_last()
        } else {
            path
        }
    } else {
        path + split(stripped(new_dir), '/')
    }
}

/// Copies the characters `from..to` of `s`.
fn substring(s: &str, from: usize, to: usize) -> (r: String)
    requires
        from <= to <= s@.len(),
    ensures
        r@ == s@.subrange(from as int, to as int),
{
    let mut r = String::new();
    let mut i: usize = from;
    while i < to
        invariant
            from <= i <= to <= s@.len(),
            r@ == s@.subrange(from as int, i as int),
        decreases to - i,
    {
        let c = s.get_char(i);
        r.push(c);
        proof {
            assert(s@.subrange(from as int, i as int).push(c) =~= s@.subrange(from as int, i + 1));
        }
        i += 1;
    }
    r
}

/// Copies a path.
fn copy_path(path: &Vec<String>, n: usize) -> (r: Vec<String>)
    requires
        n <= path@.len(),
    ensures
        views(r@) == views(path@).take(n as int),
{
    let mut r: Vec<String> = Vec::new();
    let mut i: usize = 0;
    while i < n
        invariant
            i <= n <= path@.len(),
            views(r@) == views(path@).take(i as int),
        decreases n - i,
    {
        let ghost before = views(r@);
        r.push(path[i].clone());
        proof {
            assert(views(r@) =~= before.push(path@[i as int]@));
            assert(views(path@).take(i as int).push(path@[i as int]@) =~= views(path@).take(i + 1));
        }
        i += 1;
    }
    r
}

/// `path` with the components of `name` appended: the path that `name`
/// stands for in the working directory `path`.
pub fn below(path: &Vec<String>, name: &str) -> (full: Vec<String>)
    ensures
        views(full@) == views(path@) + split(name@, '/'),
{
    let mut full = copy_path(path, path.len());
    let mut pieces = split_at(name, '/');
    let ghost a = views(full@);
    let ghost b = views(pieces@);
    full.append(&mut pieces);
    proof {
        assert(views(path@).take(path@.len() as int) =~= views(path@));
        assert(views(full@) =~= a + b);
    }
    full
}

/// The path that `cd` with the argument `new_dir` asks for, seen from the
/// working directory `path`.
pub fn change_dir(path: &Vec<String>, new_dir: &str) -> (prospective: Vec<String>)
    ensures
        views(prospective@) == target(views(path@), new_dir@),
{
    let len = new_dir.unicode_len();
    let from: usize = if len > 0 && new_dir.get_char(0) == '/' {
        1
    } else {
        0
    };
    let to: usize = if len > from && new_dir.get_char(len - 1) == '/' {
        len - 1
    } else {
        len
    };
    let dir = substring(new_dir, from, to);
    proof {
        let front = if new_dir@.len() > 0 && new_dir@[0] == '/' {
            new_dir@.drop_first()
        } else {
            new_dir@
        };
        assert(front =~= new_dir@.subrange(from as int, len as int));
        if front.len() > 0 {
            assert(front.last() == new_dir@[len - 1]);
        }
        assert(dir@ =~= stripped(new_dir@));
    }
    if dir.as_str().unicode_len() == 0 {
        let empty: Vec<String> = Vec::new();
        assert(views(empty@) =~= Seq::<Seq<char>>::empty());
        empty
    } else if same(dir.as_str(), "..") {
        if path.len() > 0 {
            let up = copy_path(path, path.len() - 1);
            assert(views(path@).take(path@.len() - 1) =~= views(path@).drop_last());
            up
        } else {
            let stay = copy_path(path, 0);
            assert(views(path@).take(0) =~= views(path@));
            stay
        }
    } else {
        below(path, dir.as_str())
    }
}

/// The working directory as the prompt shows it: `/`, then every component
/// followed by `/`.
pub open spec fn shown(path: Seq<Seq<char>>) -> Seq<char>
    decreases path.len(),
{
    if path.len() == 0 {
        seq!['/']
    } else {
        shown(path.drop_last()) + path.last() + seq!['/']
    }
}

/// The working directory as the prompt shows it, followed by a blank.
pub fn prompt(path: &Vec<String>) -> (text: String)
    ensures
        text@ == shown(views(path@)).push(' '),
{
    let mut text = String::new();
    text.push('/');
    let mut i: usize = 0;
    proof {
        assert(views(path@).take(0) =~= Seq::<Seq<char>>::empty());
        assert(text@ =~= seq!['/']);
    }
    while i < path.len()
        invariant
            i <= path@.len(),
            text@ == shown(views(path@).take(i as int)),
        decreases path@.len() - i,
    {
        let ghost before = text@;
        text.append(path[i].as_str());
        text.push('/');
        proof {
            let grown = views(path@).take(i + 1);
            assert(grown.drop_last() =~= views(path@).take(i as int));
            assert(grown.last() == path@[i as int]@);
            assert(text@ =~= before + path@[i as int]@ + seq!['/']);
        }
        i += 1;
    }
    proof {
        assert(views(path@).take(path@.len() as int) =~= views(path@));
    }
    text.push(' ');
    text
}

/// The line that describes a drive: channel, position, model, serial
/// number, and size in megabytes.
pub open spec fn drive_line(drive: Drive) -> Seq<char> {
    "ATA "@ + decimal(drive.bus_index as nat) + ": "@ + decimal(drive.drive_index as nat) + " "@ + drive.model@ + " "@
        + drive.serial@ + " ("@ + decimal((drive.sectors / 2048) as nat) + " MB)\n"@
}

/// Describes a drive in one line.
pub fn disk_info(drive: &Drive) -> (line: String)
    ensures
        line@ == drive_line(*drive),
{
    let mut line = String::new();
    line.append("ATA ");
    push_number(&mut line, drive.bus_index as u64);
    line.append(": ");
    push_number(&mut line, drive.drive_index as u64);
    line.append(" ");
    line.append(drive.model.as_str());
    line.append(" ");
    line.append(drive.serial.as_str());
    line.append(" (");
    push_number(&mut line, (drive.sectors / 2048) as u64);
    line.append(" MB)\n");
    assert(line@ =~= drive_line(*drive));
    line
}

/// How a line of output is to be shown.
#[derive(Clone, Copy, Debug, PartialEq, Eq, Structural)]
pub enum Level {
    /// As it is.
    Plain,
    /// As a warning.
    Warn,
    /// As a report of success.
    Okay,
}

/// One piece of output.
#[derive(Clone, Debug)]
pub struct Line {
    pub level: Level,
    pub text: String,
}

/// What a command answers: the code it finishes with, and what it shows.
#[derive(Clone, Debug)]
pub struct Reply {
    pub code: ExitCode,
    pub lines: Vec<Line>,
}

/// The output of a reply as plain values.
pub open spec fn output(lines: Seq<Line>) -> Seq<(Level, Seq<char>)> {
    Seq::new(lines.len(), |i: int| (lines[i].level, lines[i].text@))
}

/// What listing a directory shows: one line per entry, or a remark that
/// there is none.
pub open spec fn listed(entries: Seq<Entry>) -> Seq<(Level, Seq<char>)> {
    if entries.len() == 0 {
        seq![(Level::Plain, "no files in this directory"@)]
    } else {
        Seq::new(entries.len(), |i: int| (Level::Plain, " - "@ + label(entries[i])))
    }
}

/// What showing a file's contents shows: the text they encode, or a
/// warning and a hexadecimal dump when they are not well-formed UTF-8.
pub open spec fn displayed(bytes: Seq<u8>) -> Seq<(Level, Seq<char>)> {
    if valid_utf8(bytes) {
        seq![(Level::Plain, decode_utf8(bytes))]
    } else {
        seq![(Level::Warn, "cannot detect encoding, printing as hex\n\n"@), (Level::Plain, hex_text(bytes))]
    }
}

impl Parsed {
    /// Whether the command works on the filesystem, and so needs one to be
    /// mounted.
    pub open spec fn on_disk(self) -> bool {
        self is Cd || self is ListFiles || self is Rename || self is RemoveFile || self is RemoveDir || self is Write
            || self is Read || self is CreateDir
    }

    /// Whether running the command is up to the caller: it needs the
    /// screen, a clock, the list of drives, or arithmetic on fractions.
    pub open spec fn deferred(self) -> bool {
        self is Clear || self is Time || self is Uptime || self is Add || self is DiskInfo
    }

    /// What the command does when run in the working directory `here` on the
    /// filesystem rooted at `root`: the code it finishes with, what it
    /// shows, the working directory `there` and the disk `d1` it leaves.
    pub open spec fn effect(
        self,
        root: u32,
        d0: Seq<[u8; 512]>,
        d1: Seq<[u8; 512]>,
        here: Seq<Seq<char>>,
        there: Seq<Seq<char>>,
        code: ExitCode,
        shown: Seq<(Level, Seq<char>)>,
    ) -> bool {
        match self {
            Parsed::Cd { new_dir } => {
                &&& d1 == d0
                &&& shown.len() == 0
                &&& if resolve_dir(d0, root, target(here, new_dir)) is Some {
                    code == ExitCode::Success && there == target(here, new_dir)
                } else {
                    code == ExitCode::NotFoundError && there == here
                }
            },
            Parsed::ListFiles => {
                &&& d1 == d0
                &&& there == here
                &&& match resolve_dir(d0, root, here) {
                    Some(head) => code == ExitCode::Success && shown == listed(dir_entries(d0, head, d0.len())),
                    None => code == ExitCode::NotFoundError && shown.len() == 0,
                }
            },
            Parsed::Rename { old_name, new_name } => {
                &&& there == here
                &&& shown.len() == 0
                &&& name_changed(d0, d1, root, here + split(old_name, '/'), new_name, code)
            },
            Parsed::RemoveFile { name } => {
                &&& there == here
                &&& shown.len() == 0
                &&& file_deleted(d0, d1, root, here + split(name, '/'), code)
            },
            Parsed::RemoveDir { name } => {
                &&& there == here
                &&& shown.len() == 0
                &&& dir_deleted(d0, d1, root, here + split(name, '/'), code)
            },
            Parsed::Write { name, text } => {
                &&& there == here
                &&& file_written(d0, d1, root, here + split(name, '/'), encode_utf8(text), code)
                &&& if code == ExitCode::Success {
                    shown == seq![(Level::Okay, "successfully written file\n"@)]
                } else {
                    shown.len() == 0
                }
            },
            Parsed::Read { name } => {
                &&& d1 == d0
                &&& there == here
                &&& match lookup(d0, root, here + split(name, '/'), false) {
                    Some(e) => code == ExitCode::Success && shown == displayed(file_bytes(d0, e.addr)),
                    None => code == ExitCode::NotFoundError && shown.len() == 0,
                }
            },
            Parsed::CreateDir { name } => {
                &&& there == here
                &&& shown.len() == 0
                &&& dir_created(d0, d1, root, here.push(name), code)
            },
            _ => false,
        }
    }

    /// What a command that needs no filesystem answers.
    pub open spec fn answer(self, code: ExitCode, shown: Seq<(Level, Seq<char>)>) -> bool {
        match self {
            Parsed::Echo { text } => code == ExitCode::Success && shown == seq![(Level::Plain, text)],
            Parsed::Help { command } => code == ExitCode::Success && shown == seq![
                (Level::Plain, usage_of(parse(seq![command, "1"@, "2"@, "3"@]))),
            ],
            Parsed::Incomplete => code == ExitCode::ParseError && shown.len() == 0,
            Parsed::Null => code == ExitCode::InvalidCommandError && shown.len() == 0,
            _ => false,
        }
    }
}

/// A reply that shows nothing.
fn silent(code: ExitCode) -> (reply: Reply)
    ensures
        reply.code == code,
        reply.lines@.len() == 0,
{
    Reply { code, lines: Vec::new() }
}

/// A reply that shows one line.
fn saying(code: ExitCode, level: Level, text: String) -> (reply: Reply)
    ensures
        reply.code == code,
        output(reply.lines@) == seq![(level, text@)],
{
    let mut lines: Vec<Line> = Vec::new();
    lines.push(Line { level, text });
    assert(output(lines@) =~= seq![(level, text@)]);
    Reply { code, lines }
}

impl Command {
    /// Runs the command in the working directory `path`, on the mounted
    /// filesystem and the drive it is on.
    ///
    /// Commands that need the screen, a clock, the list of drives or
    /// arithmetic on fractions are not run: the answer is `None`, and
    /// running them is up to the caller. A command that works on the
    /// filesystem finishes with `NotMountedError` when none is mounted.
    #[verifier::rlimit(40)]
    pub fn execute(
        &self,
        filesystem: &mut Option<FileSystem>,
        drive: &mut Drive,
        path: &mut Vec<String>,
    ) -> (reply: Option<Reply>)
        ensures
            final(drive).same_identity(*old(drive)),
            reply is None <==> self@.deferred(),
            self@.deferred() ==> {
                &&& final(drive)@ == old(drive)@
                &&& views(final(path)@) == views(old(path)@)
                &&& *final(filesystem) == *old(filesystem)
            },
            !self@.deferred() && !self@.on_disk() ==> {
                &&& self@.answer(reply->0.code, output(reply->0.lines@))
                &&& final(drive)@ == old(drive)@
                &&& views(final(path)@) == views(old(path)@)
                &&& *final(filesystem) == *old(filesystem)
            },
            self@.on_disk() && (*old(filesystem)) is None ==> {
                &&& reply->0.code == ExitCode::NotMountedError
                &&& reply->0.lines@.len() == 0
                &&& final(drive)@ == old(drive)@
                &&& views(final(path)@) == views(old(path)@)
                &&& (*final(filesystem)) is None
            },
            self@.on_disk() && (*old(filesystem)) is Some ==> {
                &&& (*final(filesystem)) is Some
                &&& (*final(filesystem))->0.refreshed((*old(filesystem))->0, final(drive)@)
                &&& self@.effect(
                    (*old(filesystem))->0.entry_sector,
                    old(drive)@,
                    final(drive)@,
                    views(old(path)@),
                    views(final(path)@),
                    reply->0.code,
                    output(reply->0.lines@),
                )
            },
    {
        match self {
            Command::Clear | Command::Time | Command::Uptime | Command::Add { .. } | Command::DiskInfo => {
                return None;
            },
            Command::Echo { text } => {
                return Some(saying(ExitCode::Success, Level::Plain, text.clone()));
            },
            Command::Help { command } => {
                return Some(saying(ExitCode::Success, Level::Plain, help_for(command.as_str()).to_owned()));
            },
            Command::Incomplete => {
                return Some(silent(ExitCode::ParseError));
            },
            Command::Null => {
                return Some(silent(ExitCode::InvalidCommandError));
            },
            _ => {},
        }
        let fs = match filesystem {
            Some(fs) => fs,
            None => {
                return Some(silent(ExitCode::NotMountedError));
            },
        };
        let ghost root = fs.entry_sector;
        let ghost d0 = drive@;
        let ghost here = views(path@);
        match self {
            Command::Cd { new_dir } => {
                let prospective = change_dir(path, new_dir.as_str());
                fs.entry_table = FileTableSector::load(fs.entry_sector, drive, None);
                proof {
                    assert(views(prospective@).take(prospective@.len() as int) =~= views(prospective@));
                }
                if fs.resolve(drive, &prospective, prospective.len()).is_some() {
                    *path = prospective;
                    Some(silent(ExitCode::Success))
                } else {
                    Some(silent(ExitCode::NotFoundError))
                }
            },
            Command::ListFiles => {
                fs.entry_table = FileTableSector::load(fs.entry_sector, drive, None);
                match fs.list_files(drive, path) {
                    Some(files) => {
                        let ghost entries = dir_entries(d0, resolve_dir(d0, root, here)->0, d0.len());
                        let mut lines: Vec<Line> = Vec::new();
                        if files.len() == 0 {
                            lines.push(Line { level: Level::Plain, text: "no files in this directory".to_owned() });
                            proof {
                                assert(views(files@).len() == entries.len());
                                assert(output(lines@) =~= listed(entries));
                            }
                        } else {
                            let mut i: usize = 0;
                            proof {
                                assert(views(files@).len() == files@.len());
                                assert(listing(entries).len() == entries.len());
                                assert(listed(entries).take(0) =~= output(lines@));
                            }
                            while i < files.len()
                                invariant
                                    i <= files@.len(),
                                    files@.len() == entries.len(),
                                    views(files@) == listing(entries),
                                    output(lines@) == listed(entries).take(i as int),
                                    entries.len() > 0,
                                decreases files@.len() - i,
                            {
                                let mut text = " - ".to_owned();
                                text.append(files[i].as_str());
                                let ghost before = output(lines@);
                                lines.push(Line { level: Level::Plain, text });
                                proof {
                                    assert(views(files@)[i as int] == label(entries[i as int]));
                                    assert(output(lines@) =~= before.push((Level::Plain, " - "@ + label(entries[i as int]))));
                                    assert(listed(entries).take(i as int).push(listed(entries)[i as int]) =~= listed(
                                        entries,
                                    ).take(i + 1));
                                }
                                i += 1;
                            }
                            proof {
                                assert(views(files@).len() == entries.len());
                                assert(listed(entries).take(files@.len() as int) =~= listed(entries));
                            }
                        }
                        Some(Reply { code: ExitCode::Success, lines })
                    },
                    None => Some(silent(ExitCode::NotFoundError)),
                }
            },
            Command::Rename { old_name, new_name } => {
                let full = below(path, old_name.as_str());
                let code = fs.rename(drive, &full, new_name.as_str());
                Some(silent(code))
            },
            Command::RemoveFile { name } => {
                let full = below(path, name.as_str());
                let code = fs.delete_file(drive, &full);
                Some(silent(code))
            },
            Command::RemoveDir { name } => {
                let full = below(path, name.as_str());
                let code = fs.delete_dir(drive, &full);
                Some(silent(code))
            },
            Command::Write { name, text } => {
                let full = below(path, name.as_str());
                let code = fs.write_file(drive, &full, text.as_str().as_bytes_vec());
                match code {
                    ExitCode::Success => Some(
                        saying(ExitCode::Success, Level::Okay, "successfully written file\n".to_owned()),
                    ),
                    _ => Some(silent(code)),
                }
            },
            Command::Read { name } => {
                let full = below(path, name.as_str());
                fs.entry_table = FileTableSector::load(fs.entry_sector, drive, None);
                match fs.get_file(drive, &full) {
                    Some(file) => {
                        let file_bytes = file.read(drive);
                        let (text, is_text) = render(&file_bytes);
                        if is_text {
                            Some(saying(ExitCode::Success, Level::Plain, text))
                        } else {
                            let mut lines: Vec<Line> = Vec::new();
                            lines.push(
                                Line {
                                    level: Level::Warn,
                                    text: "cannot detect encoding, printing as hex\n\n".to_owned(),
                                },
                            );
                            lines.push(Line { level: Level::Plain, text });
                            assert(output(lines@) =~= displayed(file_bytes@));
                            Some(Reply { code: ExitCode::Success, lines })
                        }
                    },
                    None => Some(silent(ExitCode::NotFoundError)),
                }
            },
            Command::CreateDir { name } => {
                let mut full = copy_path(path, path.len());
                let ghost copied = views(full@);
                full.push(name.clone());
                proof {
                    assert(here.take(here.len() as int) =~= here);
                    assert(views(full@) =~= copied.push(name@));
                }
                let code = fs.create_dir(drive, &full);
                Some(silent(code))
            },
            _ => Some(silent(ExitCode::InvalidCommandError)),
        }
    }
}

} // verus!

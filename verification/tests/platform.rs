use pogostick::ata::bus::{identify_is_ata, identify_poll, identify_present, pack_words, unpack_words, BusStep, DriveCommand, DriveStatus, Poll, Register};
use pogostick::ata::identify::{blank, field_text, sector_count};
use pogostick::ata::{Bus, Drive};
use pogostick::input::{accept, type_char, Accept, Typed};
use pogostick::interrupts::{InterruptIndex, PIC_1_OFFSET, PIC_2_OFFSET};
use pogostick::time::{clock_registers, handle_pit_interrupt, init, wait_nano, DateTime};
use pogostick::vga::{cursor_writes, printable, Colour, ColourCode};
use pogostick::ExitCode;

fn identify_block(serial: &str, model: &str, sectors: u32) -> [u16; 256] {
    let mut words = [0u16; 256];
    let put = |words: &mut [u16; 256], at: usize, text: &str, len: usize| {
        let mut bytes = text.as_bytes().to_vec();
        bytes.resize(len * 2, b' ');
        for i in 0..len {
            words[at + i] = u16::from_be_bytes([bytes[2 * i], bytes[2 * i + 1]]);
        }
    };
    put(&mut words, 10, serial, 10);
    put(&mut words, 27, model, 20);
    words[60] = (sectors & 0xFFFF) as u16;
    words[61] = (sectors >> 16) as u16;
    words
}

#[test]
fn identify_serial_is_trimmed() {
    let words = identify_block("ABCDEF    ", "  QEMU HARDDISK", 0x0012_3456);
    assert_eq!(field_text(&words, 10, 20), "ABCDEF");
    assert_eq!(field_text(&words, 27, 47), "QEMU HARDDISK");
    assert_eq!(sector_count(&words), 0x0012_3456);
    let drive = Drive::from_identify(1, 0, &identify_block("ABCDEF    ", "QEMU HARDDISK", 40));
    assert_eq!(drive.serial, "ABCDEF");
    assert_eq!(drive.model, "QEMU HARDDISK");
    assert_eq!(drive.sectors, 40);
    assert_eq!(drive.bus_index, 1);
    assert_eq!(drive.drive_index, 0);
    assert!(drive.image.is_empty());
}

#[test]
fn identify_text_of_blanks_is_empty() {
    let words = identify_block("", "\t x \n", 0);
    assert_eq!(field_text(&words, 10, 20), "");
    assert_eq!(field_text(&words, 27, 47), "x");
    assert_eq!(field_text(&words, 5, 5), "");
    assert!(blank(' ') && blank('\t') && blank('\u{a0}') && blank('\u{3000}'));
    assert!(!blank('a') && !blank('\0') && !blank('\u{200b}'));
}

#[test]
fn register_map() {
    let bus = Bus::new(1, 0x170, 0x376, 15);
    assert_eq!(bus.port(Register::Data), 0x170);
    assert_eq!(bus.port(Register::Error), 0x171);
    assert_eq!(bus.port(Register::Features), 0x171);
    assert_eq!(bus.port(Register::SectorCount), 0x172);
    assert_eq!(bus.port(Register::Lba0), 0x173);
    assert_eq!(bus.port(Register::Lba1), 0x174);
    assert_eq!(bus.port(Register::Lba2), 0x175);
    assert_eq!(bus.port(Register::Drive), 0x176);
    assert_eq!(bus.port(Register::Status), 0x177);
    assert_eq!(bus.port(Register::Command), 0x177);
    assert_eq!(bus.port(Register::AltStatus), 0x376);
    assert_eq!(bus.port(Register::Control), 0x377);
    assert_eq!(bus.port(Register::DriveAddress), 0x377);
    assert_eq!((bus.id, bus.irq), (1, 15));
}

#[test]
fn read_command_register_order() {
    let bus = Bus::new(0, 0x1F0, 0x3F6, 14);
    let steps = bus.read(1, 0x0ABCDEF1);
    assert_eq!(
        steps,
        vec![
            BusStep::Out(0x1F6, 0xFA),
            BusStep::Out(0x1F2, 1),
            BusStep::Out(0x1F3, 0xF1),
            BusStep::Out(0x1F4, 0xDE),
            BusStep::Out(0x1F5, 0xBC),
            BusStep::Out(0x1F7, 0x20),
            BusStep::In(0x3F6),
            BusStep::In(0x3F6),
            BusStep::In(0x3F6),
            BusStep::In(0x3F6),
        ]
    );
    let steps = bus.write(0, 0xF2345678);
    assert_eq!(steps[0], BusStep::Out(0x1F6, 0xE2));
    assert_eq!(steps[5], BusStep::Out(0x1F7, 0x30));
    assert_eq!(bus.setup(0, 7), steps_for_seven());
}

fn steps_for_seven() -> Vec<BusStep> {
    vec![
        BusStep::Out(0x1F6, 0xE0),
        BusStep::Out(0x1F2, 1),
        BusStep::Out(0x1F3, 7),
        BusStep::Out(0x1F4, 0),
        BusStep::Out(0x1F5, 0),
    ]
}

#[test]
fn identify_command_sequence() {
    let bus = Bus::new(1, 0x170, 0x376, 15);
    assert_eq!(
        bus.identify_drive(1),
        vec![
            BusStep::Out(0x377, 4),
            BusStep::Delay(5),
            BusStep::Out(0x377, 0),
            BusStep::Delay(2000),
            BusStep::In(0x376),
            BusStep::In(0x376),
            BusStep::In(0x376),
            BusStep::In(0x376),
            BusStep::Out(0x176, 0xB0),
            BusStep::Out(0x172, 0),
            BusStep::Out(0x173, 0),
            BusStep::Out(0x174, 0),
            BusStep::Out(0x175, 0),
            BusStep::Out(0x177, 0xEC),
        ]
    );
    assert_eq!(bus.identify_drive(0)[8], BusStep::Out(0x176, 0xA0));
    assert_eq!(bus.reset().len(), 4);
    assert_eq!(bus.wait(), vec![BusStep::In(0x376); 4]);
}

#[test]
fn identify_decisions() {
    assert!(!identify_present(0));
    assert!(identify_present(0x50));
    assert!(identify_is_ata(0, 0));
    assert!(!identify_is_ata(0x14, 0xEB));
    assert!(!identify_is_ata(0, 1));
    assert_eq!(identify_poll(0x40, 0), Poll::Ready);
    assert_eq!(identify_poll(0x41, 0), Poll::Failed);
    assert_eq!(identify_poll(0x01, 255), Poll::Failed);
    assert_eq!(identify_poll(0x80, 255), Poll::Again);
    assert_eq!(identify_poll(0x40, 256), Poll::TimedOut);
    assert_eq!(identify_poll(0x00, 3), Poll::Again);
}

#[test]
fn status_bits() {
    assert!(Bus::is_busy(0x80));
    assert!(!Bus::is_busy(0x7F));
    assert!(Bus::is_ready(0x40));
    assert!(!Bus::is_ready(0xBF));
    assert!(Bus::is_error(0x01));
    assert!(!Bus::is_error(0xFE));
    assert_eq!(DriveStatus::Queued.bit(), 3);
    assert!(DriveStatus::Queued.is_set(0x08));
    assert!(DriveStatus::DriveFault.is_set(0x20));
    assert!(!DriveStatus::ServiceRequest.is_set(0x20));
    assert_eq!(DriveCommand::Read.code(), 0x20);
    assert_eq!(DriveCommand::Write.code(), 0x30);
    assert_eq!(DriveCommand::Identify.code(), 0xEC);
}

#[test]
fn words_are_little_endian() {
    let mut words = [0u16; 256];
    words[0] = 0x1234;
    words[255] = 0xFF01;
    let bytes = unpack_words(&words);
    assert_eq!(&bytes[..2], &[0x34, 0x12]);
    assert_eq!(&bytes[510..], &[0x01, 0xFF]);
    let mut bytes = [0u8; 512];
    for (i, b) in bytes.iter_mut().enumerate() {
        *b = (i * 3 % 256) as u8;
    }
    let packed = pack_words(&bytes);
    assert_eq!(packed[1], u16::from_le_bytes([bytes[2], bytes[3]]));
    assert_eq!(packed[200], u16::from_le_bytes([bytes[400], bytes[401]]));
    assert_eq!(unpack_words(&packed), bytes);
}

#[test]
fn clock_in_decimal_digits() {
    let t = DateTime::get([0x59, 0x59, 0x23, 0x01, 0x07, 0x03, 0x21, 0x02]);
    assert_eq!(t, DateTime { second: 59, minute: 59, hour: 23, weekday: 1, day: 7, month: 3, year: 21 });
    assert_eq!(t.to_string(), "23:59, Sunday 7 March 2021");
}

#[test]
fn clock_in_twelve_hour_mode() {
    let t = DateTime::get([0x00, 0x05, 0x80 | 0x12, 0x02, 0x31, 0x12, 0x09, 0x00]);
    assert_eq!(t.hour, 0);
    assert_eq!(t.minute, 5);
    assert_eq!(t.to_string(), "00:05, Monday 31 December 2009");
    let pm = DateTime::get([0, 0, 0x81, 3, 1, 1, 0, 0x00]);
    assert_eq!(pm.hour, 13);
    let am = DateTime::get([0, 0, 0x11, 3, 1, 1, 0, 0x00]);
    assert_eq!(am.hour, 11);
    let binary = DateTime::get([59, 30, 0x80 | 5, 7, 28, 2, 99, 0x04]);
    assert_eq!(binary, DateTime { second: 59, minute: 30, hour: 17, weekday: 7, day: 28, month: 2, year: 99 });
    let plain = DateTime::get([1, 2, 0x83, 4, 5, 6, 7, 0x06]);
    assert_eq!(plain.hour, 0x83);
    assert_eq!(plain.to_string(), "131:02, Wednesday 5 June 2007");
}

#[test]
fn day_and_month_names() {
    let mut t = DateTime { second: 0, minute: 0, hour: 0, weekday: 0, day: 0, month: 0, year: 0 };
    assert_eq!(t.get_day_name(), "Error");
    assert_eq!(t.get_month_name(), "Error");
    let days = ["Sunday", "Monday", "Tuesday", "Wednesday", "Thursday", "Friday", "Saturday"];
    for (i, d) in days.iter().enumerate() {
        t.weekday = i as u8 + 1;
        assert_eq!(t.get_day_name(), *d);
    }
    let months = [
        "January", "February", "March", "April", "May", "June", "July", "August", "September", "October", "November",
        "December",
    ];
    for (i, m) in months.iter().enumerate() {
        t.month = i as u8 + 1;
        assert_eq!(t.get_month_name(), *m);
    }
    t.weekday = 8;
    t.month = 13;
    assert_eq!(t.get_day_name(), "Error");
    assert_eq!(t.get_month_name(), "Error");
}

#[test]
fn timer_programming_and_ticks() {
    assert_eq!(init(), [(0x43, 0x36), (0x40, 0xA9), (0x40, 0x04)]);
    assert_eq!(clock_registers(), [0x00, 0x02, 0x04, 0x06, 0x07, 0x08, 0x09, 0x0B]);
    let mut ticks = 0usize;
    handle_pit_interrupt(&mut ticks);
    handle_pit_interrupt(&mut ticks);
    assert_eq!(ticks, 4);
    let mut ticks = usize::MAX;
    handle_pit_interrupt(&mut ticks);
    assert_eq!(ticks, 1);
    assert!(wait_nano(100, 150, 50));
    assert!(!wait_nano(100, 149, 50));
    assert!(wait_nano(u64::MAX, 4, 5));
    assert!(!wait_nano(u64::MAX, 3, 5));
}

#[test]
fn interrupt_vectors() {
    assert_eq!(PIC_1_OFFSET, 0x20);
    assert_eq!(PIC_2_OFFSET, 0x28);
    assert_eq!(InterruptIndex::Timer.as_u8(), 32);
    assert_eq!(InterruptIndex::Keyboard.as_u8(), 33);
    assert_eq!(InterruptIndex::Timer.as_usize(), 32);
    assert_eq!(InterruptIndex::Keyboard.as_usize(), 33);
}

#[test]
fn colour_codes() {
    assert_eq!(ColourCode::new(Colour::White, Colour::Black), ColourCode(0x0F));
    assert_eq!(ColourCode::new(Colour::LightGreen, Colour::Black), ColourCode(0x0A));
    assert_eq!(ColourCode::new(Colour::Yellow, Colour::Blue), ColourCode(0x1E));
    assert_eq!(ColourCode::new(Colour::Black, Colour::White), ColourCode(0xF0));
    assert_eq!(Colour::LightRed.code(), 12);
}

#[test]
fn exit_code_messages() {
    assert_eq!(ExitCode::Success.to_string(), "process exited successfully");
    assert_eq!(ExitCode::Error.to_string(), "an unknown error occurred");
    assert_eq!(ExitCode::ParseError.to_string(), "an error was encountered parsing the command");
    assert_eq!(ExitCode::NotFoundError.to_string(), "the requested file or directory was not found");
    assert_eq!(ExitCode::NotEmptyError.to_string(), "the directory is not empty");
    assert_eq!(ExitCode::InvalidCommandError.to_string(), "command not found");
    assert_eq!(
        ExitCode::NotMountedError.to_string(),
        "no filesystem is mounted so file operations are unavailable"
    );
}

#[test]
fn typed_characters_are_filtered() {
    for c in ['a', 'Z', '7', ' ', '\n', '\u{e9}', '\u{4e2d}'] {
        assert_eq!(accept(c), Accept::Echo, "{:?}", c);
    }
    assert_eq!(accept('\x08'), Accept::Keep);
    for c in ['-', '/', '.', '\t', '\x1b', '\0', '_'] {
        assert_eq!(accept(c), Accept::Drop, "{:?}", c);
    }
}

#[test]
fn lines_are_edited_as_typed() {
    let mut line = String::new();
    assert_eq!(type_char(&mut line, '\x08'), Typed::Nothing);
    assert_eq!(type_char(&mut line, 'l'), Typed::Added);
    assert_eq!(type_char(&mut line, 'x'), Typed::Added);
    assert_eq!(type_char(&mut line, '\x08'), Typed::Erased);
    assert_eq!(type_char(&mut line, 's'), Typed::Added);
    assert_eq!(line, "ls");
    assert_eq!(type_char(&mut line, '\n'), Typed::End);
    assert_eq!(line, "ls");
}

#[test]
fn changed_sectors_are_found() {
    let mut drive = Drive::new(0, 0, String::new(), String::new(), 6);
    let stored = drive.clone();
    assert_eq!(drive.changed_since(&stored), Vec::<u32>::new());
    let mut sector = [0u8; 512];
    sector[511] = 1;
    drive.write(4, &sector);
    drive.write(1, &sector);
    drive.write(0, &[0u8; 512]);
    assert_eq!(drive.changed_since(&stored), vec![1, 4]);
}

#[test]
fn cursor_and_printable_bytes() {
    assert_eq!(cursor_writes(0, 0), [(0x3D4, 0x0F), (0x3D5, 0), (0x3D4, 0x0E), (0x3D5, 0)]);
    assert_eq!(cursor_writes(5, 24), [(0x3D4, 0x0F), (0x3D5, 0x85), (0x3D4, 0x0E), (0x3D5, 0x07)]);
    assert_eq!(cursor_writes(80, 24), [(0x3D4, 0x0F), (0x3D5, 0xD0), (0x3D4, 0x0E), (0x3D5, 0x07)]);
    assert_eq!(printable(b'a'), b'a');
    assert_eq!(printable(b' '), b' ');
    assert_eq!(printable(b'~'), b'~');
    assert_eq!(printable(b'\n'), b'\n');
    assert_eq!(printable(0x7f), 0xfe);
    assert_eq!(printable(0x1f), 0xfe);
    assert_eq!(printable(0xe9), 0xfe);
}

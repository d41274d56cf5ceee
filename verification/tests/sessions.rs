use pogostick::ata::bus::BusStep;
use pogostick::ata::session::{Action, Event, Operation, Outcome, Session, Stage};
use pogostick::ata::Bus;

/// A device that answers status reads with the values of `status` in turn,
/// repeating the last, and the two signature registers with `signature`.
struct Device {
    status: Vec<u8>,
    signature: (u8, u8),
    data: [u16; 256],
    written: Option<[u16; 256]>,
    status_reads: usize,
    outs: Vec<(u16, u8)>,
}

impl Device {
    fn new(status: &[u8]) -> Device {
        Device { status: status.to_vec(), signature: (0, 0), data: [0; 256], written: None, status_reads: 0, outs: Vec::new() }
    }

    fn answer(&mut self, action: Action) -> Option<Event> {
        match action {
            Action::Steps(steps) => {
                for step in steps {
                    if let BusStep::Out(port, value) = step {
                        self.outs.push((port, value));
                    }
                }
                Some(Event::Done)
            }
            Action::ReadPort(0x177) => {
                let i = self.status_reads.min(self.status.len() - 1);
                self.status_reads += 1;
                Some(Event::Byte(self.status[i]))
            }
            Action::ReadPort(0x174) => Some(Event::Byte(self.signature.0)),
            Action::ReadPort(0x175) => Some(Event::Byte(self.signature.1)),
            Action::ReadPort(port) => panic!("unexpected read of port {:#x}", port),
            Action::ReadData(port) => {
                assert_eq!(port, 0x170);
                Some(Event::Words(self.data))
            }
            Action::WriteData(port, words) => {
                assert_eq!(port, 0x170);
                self.written = Some(words);
                Some(Event::Done)
            }
            Action::Nothing => None,
        }
    }

    fn serve(&mut self, operation: Operation) -> Outcome {
        let mut session = Session::new(Bus::new(1, 0x170, 0x376, 15), 0, operation);
        let mut rounds = 0;
        while let Some(event) = self.answer(session.action()) {
            session.advance(event);
            rounds += 1;
            assert!(rounds < 2000, "the session does not end");
        }
        session.outcome().expect("a session that asks for nothing is finished")
    }
}

#[test]
fn identify_returns_the_block() {
    let mut device = Device::new(&[0x50, 0x80, 0x80, 0x00, 0x00, 0x08, 0x48]);
    device.data[10] = 0x4142;
    assert!(matches!(device.serve(Operation::Identify), Outcome::Identified(words) if words[10] == 0x4142));
    assert_eq!(device.status_reads, 7);
    assert_eq!(device.outs.last(), Some(&(0x177, 0xEC)));
}

#[test]
fn identify_without_device() {
    let mut device = Device::new(&[0x00]);
    assert!(matches!(device.serve(Operation::Identify), Outcome::Absent));
    assert_eq!(device.status_reads, 1);
}

#[test]
fn identify_of_another_kind_of_device() {
    let mut device = Device::new(&[0x50]);
    device.signature = (0x14, 0xEB);
    assert!(matches!(device.serve(Operation::Identify), Outcome::Absent));
    let mut device = Device::new(&[0x50]);
    device.signature = (0, 1);
    assert!(matches!(device.serve(Operation::Identify), Outcome::Absent));
}

#[test]
fn identify_with_error() {
    let mut device = Device::new(&[0x50, 0x00, 0x00, 0x41]);
    assert!(matches!(device.serve(Operation::Identify), Outcome::Absent));
    assert_eq!(device.status_reads, 4);
}

#[test]
fn identify_gives_up_after_256_polls() {
    let mut device = Device::new(&[0x50, 0x00, 0x10]);
    assert!(matches!(device.serve(Operation::Identify), Outcome::Absent));
    assert_eq!(device.status_reads, 2 + 256);
    let tail: Vec<(u16, u8)> = device.outs[device.outs.len() - 2..].to_vec();
    assert_eq!(tail, vec![(0x377, 4), (0x377, 0)]);
}

#[test]
fn identify_succeeds_on_the_last_poll() {
    let mut status = vec![0x50, 0x00];
    status.extend(std::iter::repeat(0x10).take(255));
    status.push(0x40);
    let mut device = Device::new(&status);
    assert!(matches!(device.serve(Operation::Identify), Outcome::Identified(_)));
    assert_eq!(device.status_reads, 2 + 256);
}

#[test]
fn read_session_unpacks_the_sector() {
    let mut device = Device::new(&[0x80, 0x80, 0x58]);
    device.data[0] = 0x1234;
    device.data[255] = 0xABCD;
    match device.serve(Operation::Read(0x0102_0304)) {
        Outcome::Sector(bytes) => {
            assert_eq!(&bytes[..2], &[0x34, 0x12]);
            assert_eq!(&bytes[510..], &[0xCD, 0xAB]);
        }
        other => panic!("unexpected outcome {:?}", other),
    }
    assert_eq!(device.outs, vec![(0x176, 0xE1), (0x172, 1), (0x173, 0x04), (0x174, 0x03), (0x175, 0x02), (0x177, 0x20)]);
    assert_eq!(device.status_reads, 3);
}

#[test]
fn write_session_packs_the_sector_and_waits_again() {
    let mut device = Device::new(&[0x80, 0x58, 0x80, 0x80, 0x50]);
    let mut bytes = [0u8; 512];
    bytes[0] = 0x34;
    bytes[1] = 0x12;
    bytes[511] = 0xFF;
    assert!(matches!(device.serve(Operation::Write(9, bytes)), Outcome::Written));
    let words = device.written.expect("the data was written");
    assert_eq!(words[0], 0x1234);
    assert_eq!(words[255], 0xFF00);
    assert_eq!(device.outs[5], (0x177, 0x30));
    assert_eq!(device.status_reads, 5);
}

#[test]
fn session_ignores_what_it_did_not_ask_for() {
    let mut session = Session::new(Bus::new(1, 0x170, 0x376, 15), 1, Operation::Read(0));
    session.advance(Event::Byte(0));
    session.advance(Event::Words([0; 256]));
    assert!(matches!(session.stage, Stage::Start));
    assert!(session.outcome().is_none());
    session.advance(Event::Done);
    assert!(matches!(session.stage, Stage::Busy));
    session.advance(Event::Done);
    assert!(matches!(session.stage, Stage::Busy));
    session.advance(Event::Byte(0x08));
    assert!(matches!(session.stage, Stage::Data));
    session.advance(Event::Done);
    assert!(matches!(session.stage, Stage::Data));
    session.advance(Event::Words([0; 256]));
    assert!(matches!(session.outcome(), Some(Outcome::Sector(_))));
    session.advance(Event::Byte(0x80));
    assert!(matches!(session.outcome(), Some(Outcome::Sector(_))));
    assert!(matches!(session.action(), Action::Nothing));
}

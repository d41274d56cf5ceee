//! One command on an ATA channel, from its first register write to its
//! result, as a dialogue: the session says what is to be done on the ports
//! next, and is told what came of it.

use crate::ata::bus::{identify_is_ata, identify_poll, identify_present, pack_words, spec_identify_poll, unpack_words, Bus, BusStep, DriveCommand, DriveStatus, Poll, Register};
use vstd::prelude::*;

verus! {

/// The command a session carries out.
#[derive(Clone, Copy, Debug)]
pub enum Operation {
    /// Ask the drive to identify itself.
    Identify,
    /// Read the sector at this block address.
    Read(u32),
    /// Write these 512 bytes to the sector at this block address.
    Write(u32, [u8; 512]),
}

/// What a session asks for next.
#[derive(Clone, Debug)]
pub enum Action {
    /// Carry out these port accesses, in order.
    Steps(Vec<BusStep>),
    /// Read one byte from this port and report it.
    ReadPort(u16),
    /// Read 256 words from this port and report them.
    ReadData(u16),
    /// Write these 256 words to this port, in order.
    WriteData(u16, [u16; 256]),
    /// Nothing more: the session is finished.
    Nothing,
}

/// What came of the action a session asked for.
#[derive(Clone, Copy, Debug)]
pub enum Event {
    /// The port accesses were carried out, or the words were written.
    Done,
    /// The byte that was read.
    Byte(u8),
    /// The words that were read.
    Words([u16; 256]),
}

/// How a session ended.
#[derive(Clone, Copy, Debug)]
pub enum Outcome {
    /// There is no ATA drive that answers.
    Absent,
    /// The block of words the drive identifies itself with.
    Identified([u16; 256]),
    /// The sector that was read.
    Sector([u8; 512]),
    /// The sector was written.
    Written,
}

/// Where a session stands.
///
/// A read goes from `Start` through `Busy` to `Data`. A write goes on from
/// there through `Flush` and `Storing`. An identify passes `Presence`,
/// `Settle`, `Busy`, the two signature stages and `Poll` before `Data`,
/// and may end early at any of them.
#[derive(Clone, Copy, Debug)]
pub enum Stage {
    /// The command has yet to be sent: the registers are set up, the
    /// command is written, and, but for an identify, the device is given
    /// time to settle.
    Start,
    /// Identify only: the command was sent; the status tells whether a
    /// device is there at all.
    Presence,
    /// Identify only: a device is there; it is given time to settle.
    Settle,
    /// The device is busy with the command; the status is read until it no
    /// longer is.
    Busy,
    /// Identify only: the first of the two registers that tell an ATA drive
    /// from other devices is to be read.
    Signature,
    /// Identify only: the second of them is to be read; the first held
    /// this value.
    SignatureRest(u8),
    /// Identify only: the status is read until the drive is ready or
    /// reports an error; this many reads were in vain so far.
    Poll(u32),
    /// Identify only: the drive never got ready; the channel is reset.
    Reset,
    /// The data is to be transferred.
    Data,
    /// Write only: the data was written; the device is given time to
    /// settle.
    Flush,
    /// Write only: the device is busy storing the data.
    Storing,
    /// The session is over.
    Finished(Outcome),
}

/// A command in progress on a drive of a channel.
#[derive(Clone, Copy, Debug)]
pub struct Session {
    pub bus: Bus,
    pub drive: u8,
    pub operation: Operation,
    pub stage: Stage,
}

/// Whether `bytes` are the 512 bytes that the 256 `words` of a sector
/// stand for: of each word the low byte first.
pub open spec fn spread(words: [u16; 256], bytes: [u8; 512]) -> bool {
    forall|i: int| 0 <= i < 256 ==> bytes[2 * i] == (words[i] & 0xff) as u8 && bytes[2 * i + 1] == (words[i] >> 8) as u8
}

/// Whether `words` are the 256 words that the 512 `bytes` of a sector are
/// written as: of each pair of bytes the first is the low one.
pub open spec fn gathered(bytes: [u8; 512], words: [u16; 256]) -> bool {
    forall|i: int| 0 <= i < 256 ==> words[i] == (bytes[2 * i] as u16) | ((bytes[2 * i + 1] as u16) << 8)
}

/// Whether `next` is the stage that follows `stage` of `operation` once
/// `event` came of the action it asked for. An event that does not answer
/// that action changes nothing.
pub open spec fn advances(operation: Operation, stage: Stage, event: Event, next: Stage) -> bool {
    match (stage, event) {
        (Stage::Start, Event::Done) => next == (match operation {
            Operation::Identify => Stage::Presence,
            _ => Stage::Busy,
        }),
        (Stage::Presence, Event::Byte(status)) => next == (if status != 0 {
            Stage::Settle
        } else {
            Stage::Finished(Outcome::Absent)
        }),
        (Stage::Settle, Event::Done) => next == Stage::Busy,
        (Stage::Busy, Event::Byte(status)) => next == (if DriveStatus::Busy.spec_is_set(status) {
            Stage::Busy
        } else {
            match operation {
                Operation::Identify => Stage::Signature,
                _ => Stage::Data,
            }
        }),
        (Stage::Signature, Event::Byte(lba1)) => next == Stage::SignatureRest(lba1),
        (Stage::SignatureRest(lba1), Event::Byte(lba2)) => next == (if lba1 == 0 && lba2 == 0 {
            Stage::Poll(0)
        } else {
            Stage::Finished(Outcome::Absent)
        }),
        (Stage::Poll(polls), Event::Byte(status)) => next == (match spec_identify_poll(status, polls) {
            Poll::Failed => Stage::Finished(Outcome::Absent),
            Poll::Ready => Stage::Data,
            Poll::Again => if polls >= 255 {
                Stage::Reset
            } else {
                Stage::Poll((polls + 1) as u32)
            },
            Poll::TimedOut => Stage::Reset,
        }),
        (Stage::Reset, Event::Done) => next == Stage::Finished(Outcome::Absent),
        (Stage::Data, Event::Words(words)) => match operation {
            Operation::Identify => next == Stage::Finished(Outcome::Identified(words)),
            Operation::Read(_) => match next {
                Stage::Finished(Outcome::Sector(bytes)) => spread(words, bytes),
                _ => false,
            },
            Operation::Write(_, _) => next == stage,
        },
        (Stage::Data, Event::Done) => next == (match operation {
            Operation::Write(_, _) => Stage::Flush,
            _ => stage,
        }),
        (Stage::Flush, Event::Done) => next == Stage::Storing,
        (Stage::Storing, Event::Byte(status)) => next == (if DriveStatus::Busy.spec_is_set(status) {
            Stage::Storing
        } else {
            Stage::Finished(Outcome::Written)
        }),
        _ => next == stage,
    }
}

impl Session {
    /// The channel's registers fit into port space and the drive is one of
    /// the two a channel has.
    pub open spec fn wf(&self) -> bool {
        self.bus.wf() && self.drive <= 1
    }

    /// Whether `action` is what the session asks for at its stage.
    pub open spec fn asks(&self, action: Action) -> bool {
        match self.stage {
            Stage::Start => match action {
                Action::Steps(steps) => steps@ == (match self.operation {
                    Operation::Identify => self.bus.identify_steps(self.drive),
                    Operation::Read(block) => self.bus.transfer_steps(self.drive, block, DriveCommand::Read),
                    Operation::Write(block, _) => self.bus.transfer_steps(self.drive, block, DriveCommand::Write),
                }),
                _ => false,
            },
            Stage::Presence | Stage::Poll(_) => action == Action::ReadPort(self.bus.spec_port(Register::Status) as u16),
            Stage::Busy | Stage::Storing => action == Action::ReadPort(self.bus.spec_port(Register::Status) as u16),
            Stage::Settle | Stage::Flush => match action {
                Action::Steps(steps) => steps@ == self.bus.wait_steps(),
                _ => false,
            },
            Stage::Signature => action == Action::ReadPort(self.bus.spec_port(Register::Lba1) as u16),
            Stage::SignatureRest(_) => action == Action::ReadPort(self.bus.spec_port(Register::Lba2) as u16),
            Stage::Reset => match action {
                Action::Steps(steps) => steps@ == self.bus.reset_steps(),
                _ => false,
            },
            Stage::Data => match self.operation {
                Operation::Write(_, bytes) => match action {
                    Action::WriteData(port, words) => port == self.bus.spec_port(Register::Data) && gathered(bytes, words),
                    _ => false,
                },
                _ => action == Action::ReadData(self.bus.spec_port(Register::Data) as u16),
            },
            Stage::Finished(_) => action == Action::Nothing,
        }
    }

    /// Begins a command on `drive` of the channel `bus`.
    pub fn new(bus: Bus, drive: u8, operation: Operation) -> (session: Session)
        ensures
            session.bus == bus,
            session.drive == drive,
            session.operation == operation,
            session.stage == Stage::Start,
    {
        Session { bus, drive, operation, stage: Stage::Start }
    }

    /// What is to be done on the ports next.
    pub fn action(&self) -> (action: Action)
        requires
            self.wf(),
        ensures
            self.asks(action),
    {
        match self.stage {
            Stage::Start => match self.operation {
                Operation::Identify => Action::Steps(self.bus.identify_drive(self.drive)),
                Operation::Read(block) => Action::Steps(self.bus.read(self.drive, block)),
                Operation::Write(block, _) => Action::Steps(self.bus.write(self.drive, block)),
            },
            Stage::Presence | Stage::Poll(_) | Stage::Busy | Stage::Storing => Action::ReadPort(
                self.bus.port(Register::Status),
            ),
            Stage::Settle | Stage::Flush => Action::Steps(self.bus.wait()),
            Stage::Signature => Action::ReadPort(self.bus.port(Register::Lba1)),
            Stage::SignatureRest(_) => Action::ReadPort(self.bus.port(Register::Lba2)),
            Stage::Reset => Action::Steps(self.bus.reset()),
            Stage::Data => match self.operation {
                Operation::Write(_, bytes) => Action::WriteData(self.bus.port(Register::Data), pack_words(&bytes)),
                _ => Action::ReadData(self.bus.port(Register::Data)),
            },
            Stage::Finished(_) => Action::Nothing,
        }
    }

    /// Takes note of what came of the action last asked for.
    pub fn advance(&mut self, event: Event)
        ensures
            final(self).bus == old(self).bus,
            final(self).drive == old(self).drive,
            final(self).operation == old(self).operation,
            advances(old(self).operation, old(self).stage, event, final(self).stage),
    {
        let next = match (self.stage, event) {
            (Stage::Start, Event::Done) => match self.operation {
                Operation::Identify => Stage::Presence,
                _ => Stage::Busy,
            },
            (Stage::Presence, Event::Byte(status)) => if identify_present(status) {
                Stage::Settle
            } else {
                Stage::Finished(Outcome::Absent)
            },
            (Stage::Settle, Event::Done) => Stage::Busy,
            (Stage::Busy, Event::Byte(status)) => if Bus::is_busy(status) {
                Stage::Busy
            } else {
                match self.operation {
                    Operation::Identify => Stage::Signature,
                    _ => Stage::Data,
                }
            },
            (Stage::Signature, Event::Byte(lba1)) => Stage::SignatureRest(lba1),
            (Stage::SignatureRest(lba1), Event::Byte(lba2)) => if identify_is_ata(lba1, lba2) {
                Stage::Poll(0)
            } else {
                Stage::Finished(Outcome::Absent)
            },
            (Stage::Poll(polls), Event::Byte(status)) => match identify_poll(status, polls) {
                Poll::Failed => Stage::Finished(Outcome::Absent),
                Poll::Ready => Stage::Data,
                Poll::Again => if polls >= 255 {
                    Stage::Reset
                } else {
                    Stage::Poll(polls + 1)
                },
                Poll::TimedOut => Stage::Reset,
            },
            (Stage::Reset, Event::Done) => Stage::Finished(Outcome::Absent),
            (Stage::Data, Event::Words(words)) => match self.operation {
                Operation::Identify => Stage::Finished(Outcome::Identified(words)),
                Operation::Read(_) => Stage::Finished(Outcome::Sector(unpack_words(&words))),
                Operation::Write(_, _) => self.stage,
            },
            (Stage::Data, Event::Done) => match self.operation {
                Operation::Write(_, _) => Stage::Flush,
                _ => self.stage,
            },
            (Stage::Flush, Event::Done) => Stage::Storing,
            (Stage::Storing, Event::Byte(status)) => if Bus::is_busy(status) {
                Stage::Storing
            } else {
                Stage::Finished(Outcome::Written)
            },
            _ => self.stage,
        };
        self.stage = next;
    }

    /// How the session ended, once it has.
    pub fn outcome(&self) -> (r: Option<Outcome>)
        ensures
            r == (match self.stage {
                Stage::Finished(outcome) => Some(outcome),
                _ => None,
            }),
    {
        match self.stage {
            Stage::Finished(outcome) => Some(outcome),
            _ => None,
        }
    }
}

/// A finished session stays finished, whatever it is told.
pub proof fn lemma_finished_stays(operation: Operation, outcome: Outcome, event: Event, next: Stage)
    requires
        advances(operation, Stage::Finished(outcome), event, next),
    ensures
        next == Stage::Finished(outcome),
{
}

/// An identify session reads the data only from a drive that showed a
/// status, left both signature registers at zero, and reported itself
/// ready without an error within 256 reads of the status.
pub proof fn lemma_identify_reads_when_ready(stage: Stage, event: Event, next: Stage)
    requires
        advances(Operation::Identify, stage, event, next),
        next == Stage::Data,
        stage != Stage::Data,
    ensures
        stage is Poll,
        stage->Poll_0 < 256,
        event is Byte,
        DriveStatus::Ready.spec_is_set(event->Byte_0),
        !DriveStatus::Error.spec_is_set(event->Byte_0),
{
}

/// An identify session polls the status only after the device showed a
/// status other than zero and left both signature registers at zero.
pub proof fn lemma_identify_polls_ata(stage: Stage, event: Event, next: Stage)
    requires
        advances(Operation::Identify, stage, event, next),
        next == Stage::Poll(0),
        !(stage is Poll),
    ensures
        stage == Stage::SignatureRest(0),
        event == Event::Byte(0),
{
}

} // verus!

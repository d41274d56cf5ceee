//! The register-level protocol of one ATA channel, planned as data.
//!
//! Nothing here touches a port. Each command is laid out as the sequence of
//! port accesses that starts it, in the order the device has to see them;
//! whoever owns the ports carries the sequence out, reads the status
//! register back, and asks the decision functions here what that status
//! means.

use crate::bits::{bit_range16, bit_range32, get_bit_u8, get_bits_u16, get_bits_u32, set_bits_u16};
use vstd::prelude::*;

verus! {

/// The commands the driver sends.
#[derive(Clone, Copy, Debug, PartialEq, Eq, Structural)]
pub enum DriveCommand {
    Read,
    Write,
    Identify,
}

impl DriveCommand {
    /// The command byte as the device expects it.
    pub open spec fn spec_code(self) -> u8 {
        match self {
            DriveCommand::Read => 0x20,
            DriveCommand::Write => 0x30,
            DriveCommand::Identify => 0xEC,
        }
    }

    /// The command byte as the device expects it.
    #[verifier::when_used_as_spec(spec_code)]
    pub fn code(self) -> (c: u8)
        ensures
            c == self.spec_code(),
    {
        match self {
            DriveCommand::Read => 0x20,
            DriveCommand::Write => 0x30,
            DriveCommand::Identify => 0xEC,
        }
    }
}

/// The bits of the status register.
#[derive(Clone, Copy, Debug, PartialEq, Eq, Structural)]
pub enum DriveStatus {
    Error,
    Index,
    Corrected,
    Queued,
    ServiceRequest,
    DriveFault,
    Ready,
    Busy,
}

impl DriveStatus {
    /// Position of the bit in the status register.
    pub open spec fn spec_bit(self) -> usize {
        match self {
            DriveStatus::Error => 0,
            DriveStatus::Index => 1,
            DriveStatus::Corrected => 2,
            DriveStatus::Queued => 3,
            DriveStatus::ServiceRequest => 4,
            DriveStatus::DriveFault => 5,
            DriveStatus::Ready => 6,
            DriveStatus::Busy => 7,
        }
    }

    /// Position of the bit in the status register.
    #[verifier::when_used_as_spec(spec_bit)]
    pub fn bit(self) -> (b: usize)
        ensures
            b == self.spec_bit(),
    {
        match self {
            DriveStatus::Error => 0,
            DriveStatus::Index => 1,
            DriveStatus::Corrected => 2,
            DriveStatus::Queued => 3,
            DriveStatus::ServiceRequest => 4,
            DriveStatus::DriveFault => 5,
            DriveStatus::Ready => 6,
            DriveStatus::Busy => 7,
        }
    }

    /// Whether this bit is set in `status`.
    pub open spec fn spec_is_set(self, status: u8) -> bool {
        (status & (1u8 << (self.spec_bit() as u8))) != 0
    }

    /// Whether this bit is set in `status`.
    #[verifier::when_used_as_spec(spec_is_set)]
    pub fn is_set(self, status: u8) -> (r: bool)
        ensures
            r == self.spec_is_set(status),
    {
        get_bit_u8(status, self.bit())
    }
}

/// The registers of a channel.
#[derive(Clone, Copy, Debug, PartialEq, Eq, Structural)]
pub enum Register {
    Data,
    Error,
    Features,
    SectorCount,
    Lba0,
    Lba1,
    Lba2,
    Drive,
    Status,
    Command,
    AltStatus,
    Control,
    DriveAddress,
}

/// One port access of a planned sequence.
#[derive(Clone, Copy, Debug, PartialEq, Eq, Structural)]
pub enum BusStep {
    /// Write the byte to the port.
    Out(u16, u8),
    /// Read a byte from the port and drop it; the read itself is the delay.
    In(u16),
    /// Let at least this many nanoseconds pass.
    Delay(u64),
}

/// What a status read means while the driver waits for an identify block.
#[derive(Clone, Copy, Debug, PartialEq, Eq, Structural)]
pub enum Poll {
    /// The drive is ready: read the 256 words.
    Ready,
    /// The drive reported an error: it is absent.
    Failed,
    /// Neither yet: read the status again.
    Again,
    /// Polled 256 times in vain: reset the channel, the drive is absent.
    TimedOut,
}

/// One ATA channel: its number, its interrupt line, and where its two
/// register blocks lie in port space.
#[derive(Clone, Copy, Debug)]
pub struct Bus {
    pub id: u8,
    pub irq: u8,
    pub io_base: u16,
    pub control_base: u16,
}

/// The drive/head byte that selects `drive` in LBA mode with the top four
/// bits of a 28-bit block address.
pub open spec fn head_byte(drive: u8, block: u32) -> u8 {
    0xE0u8 | (drive << 4u8) | (((block >> 24u32) & 0x0Fu32) as u8)
}

/// Byte `i` (0 = least significant) of a block address.
pub open spec fn lba_byte(block: u32, i: int) -> u8 {
    if i == 0 {
        (block & 0xff) as u8
    } else if i == 1 {
        ((block >> 8) & 0xff) as u8
    } else {
        ((block >> 16) & 0xff) as u8
    }
}

impl Bus {
    /// Both register blocks fit into the 16-bit port space.
    pub open spec fn wf(&self) -> bool {
        self.io_base <= 0xFFF8 && self.control_base <= 0xFFFE
    }

    /// The port of a register of this channel.
    pub open spec fn spec_port(&self, reg: Register) -> int {
        match reg {
            Register::Data => self.io_base + 0,
            Register::Error => self.io_base + 1,
            Register::Features => self.io_base + 1,
            Register::SectorCount => self.io_base + 2,
            Register::Lba0 => self.io_base + 3,
            Register::Lba1 => self.io_base + 4,
            Register::Lba2 => self.io_base + 5,
            Register::Drive => self.io_base + 6,
            Register::Status => self.io_base + 7,
            Register::Command => self.io_base + 7,
            Register::AltStatus => self.control_base + 0,
            Register::Control => self.control_base + 1,
            Register::DriveAddress => self.control_base + 1,
        }
    }

    /// Describes the channel whose command block starts at `io_base` and
    /// whose control block starts at `control_base`.
    pub fn new(id: u8, io_base: u16, control_base: u16, irq: u8) -> (bus: Self)
        requires
            io_base <= 0xFFF8,
            control_base <= 0xFFFE,
        ensures
            bus.wf(),
            bus.id == id,
            bus.irq == irq,
            bus.io_base == io_base,
            bus.control_base == control_base,
    {
        Bus { id, irq, io_base, control_base }
    }

    /// The port of a register of this channel.
    pub fn port(&self, reg: Register) -> (p: u16)
        requires
            self.wf(),
        ensures
            p == self.spec_port(reg),
    {
        match reg {
            Register::Data => self.io_base,
            Register::Error => self.io_base + 1,
            Register::Features => self.io_base + 1,
            Register::SectorCount => self.io_base + 2,
            Register::Lba0 => self.io_base + 3,
            Register::Lba1 => self.io_base + 4,
            Register::Lba2 => self.io_base + 5,
            Register::Drive => self.io_base + 6,
            Register::Status => self.io_base + 7,
            Register::Command => self.io_base + 7,
            Register::AltStatus => self.control_base,
            Register::Control => self.control_base + 1,
            Register::DriveAddress => self.control_base + 1,
        }
    }

    /// The steps of a channel reset.
    pub open spec fn reset_steps(&self) -> Seq<BusStep> {
        seq![
            BusStep::Out(self.spec_port(Register::Control) as u16, 4),
            BusStep::Delay(5),
            BusStep::Out(self.spec_port(Register::Control) as u16, 0),
            BusStep::Delay(2000),
        ]
    }

    /// The steps of the settling delay: four reads of the alternate status.
    pub open spec fn wait_steps(&self) -> Seq<BusStep> {
        seq![
            BusStep::In(self.spec_port(Register::AltStatus) as u16),
            BusStep::In(self.spec_port(Register::AltStatus) as u16),
            BusStep::In(self.spec_port(Register::AltStatus) as u16),
            BusStep::In(self.spec_port(Register::AltStatus) as u16),
        ]
    }

    /// The register writes that address one sector of a drive.
    pub open spec fn setup_steps(&self, drive: u8, block: u32) -> Seq<BusStep> {
        seq![
            BusStep::Out(self.spec_port(Register::Drive) as u16, head_byte(drive, block)),
            BusStep::Out(self.spec_port(Register::SectorCount) as u16, 1),
            BusStep::Out(self.spec_port(Register::Lba0) as u16, lba_byte(block, 0)),
            BusStep::Out(self.spec_port(Register::Lba1) as u16, lba_byte(block, 1)),
            BusStep::Out(self.spec_port(Register::Lba2) as u16, lba_byte(block, 2)),
        ]
    }

    /// The steps that start a transfer of one sector: address it, send the
    /// command, let the device settle.
    pub open spec fn transfer_steps(&self, drive: u8, block: u32, command: DriveCommand) -> Seq<BusStep> {
        self.setup_steps(drive, block) + seq![
            BusStep::Out(self.spec_port(Register::Command) as u16, command.spec_code()),
        ] + self.wait_steps()
    }

    /// The steps that ask a drive to identify itself.
    pub open spec fn identify_steps(&self, drive: u8) -> Seq<BusStep> {
        self.reset_steps() + self.wait_steps() + seq![
            BusStep::Out(self.spec_port(Register::Drive) as u16, 0xA0u8 | (drive << 4u8)),
            BusStep::Out(self.spec_port(Register::SectorCount) as u16, 0),
            BusStep::Out(self.spec_port(Register::Lba0) as u16, 0),
            BusStep::Out(self.spec_port(Register::Lba1) as u16, 0),
            BusStep::Out(self.spec_port(Register::Lba2) as u16, 0),
            BusStep::Out(self.spec_port(Register::Command) as u16, DriveCommand::Identify.spec_code()),
        ]
    }

    /// Plans a channel reset.
    pub fn reset(&self) -> (steps: Vec<BusStep>)
        requires
            self.wf(),
        ensures
            steps@ == self.reset_steps(),
    {
        let control = self.port(Register::Control);
        let steps = vec![BusStep::Out(control, 4), BusStep::Delay(5), BusStep::Out(control, 0), BusStep::Delay(2000)];
        assert(steps@ =~= self.reset_steps());
        steps
    }

    /// Plans the settling delay that follows a command.
    pub fn wait(&self) -> (steps: Vec<BusStep>)
        requires
            self.wf(),
        ensures
            steps@ == self.wait_steps(),
    {
        let alt = self.port(Register::AltStatus);
        let steps = vec![BusStep::In(alt), BusStep::In(alt), BusStep::In(alt), BusStep::In(alt)];
        assert(steps@ =~= self.wait_steps());
        steps
    }

    /// Whether a status byte says the device is still busy.
    pub fn is_busy(status: u8) -> (r: bool)
        ensures
            r == DriveStatus::Busy.spec_is_set(status),
    {
        DriveStatus::Busy.is_set(status)
    }

    /// Whether a status byte reports an error.
    pub fn is_error(status: u8) -> (r: bool)
        ensures
            r == DriveStatus::Error.spec_is_set(status),
    {
        DriveStatus::Error.is_set(status)
    }

    /// Whether a status byte says the device is ready.
    pub fn is_ready(status: u8) -> (r: bool)
        ensures
            r == DriveStatus::Ready.spec_is_set(status),
    {
        DriveStatus::Ready.is_set(status)
    }

    /// Plans the register writes that address `block` on `drive`.
    pub fn setup(&self, drive: u8, block: u32) -> (steps: Vec<BusStep>)
        requires
            self.wf(),
            drive <= 1,
        ensures
            steps@ == self.setup_steps(drive, block),
    {
        let drive_id: u8 = 0xE0 | (drive << 4);
        let top = get_bits_u32(block, 24, 28);
        let b0 = get_bits_u32(block, 0, 8);
        let b1 = get_bits_u32(block, 8, 16);
        let b2 = get_bits_u32(block, 16, 24);
        assert(bit_range32(block, 24, 28) == (block >> 24u32) & 0x0Fu32 && ((block >> 24u32) & 0x0Fu32) < 16) by (bit_vector);
        assert(bit_range32(block, 0, 8) == block & 0xff && (block & 0xff) < 256) by (bit_vector);
        assert(bit_range32(block, 8, 16) == (block >> 8) & 0xff && ((block >> 8) & 0xff) < 256) by (bit_vector);
        assert(bit_range32(block, 16, 24) == (block >> 16) & 0xff && ((block >> 16) & 0xff) < 256) by (bit_vector);
        let top_byte = top as u8;
        assert(drive_id | (top_byte & 0x0F) == 0xE0u8 | (drive << 4u8) | top_byte) by (bit_vector)
            requires
                drive_id == 0xE0u8 | (drive << 4u8),
                top_byte < 16,
        ;
        let steps = vec![
            BusStep::Out(self.port(Register::Drive), drive_id | (top_byte & 0x0F)),
            BusStep::Out(self.port(Register::SectorCount), 1),
            BusStep::Out(self.port(Register::Lba0), b0 as u8),
            BusStep::Out(self.port(Register::Lba1), b1 as u8),
            BusStep::Out(self.port(Register::Lba2), b2 as u8),
        ];
        assert(steps@ =~= self.setup_steps(drive, block));
        steps
    }

    /// Plans the start of a transfer of one sector in either direction.
    fn transfer(&self, drive: u8, block: u32, command: DriveCommand) -> (steps: Vec<BusStep>)
        requires
            self.wf(),
            drive <= 1,
        ensures
            steps@ == self.transfer_steps(drive, block, command),
    {
        let mut steps = self.setup(drive, block);
        steps.push(BusStep::Out(self.port(Register::Command), command.code()));
        let mut settle = self.wait();
        steps.append(&mut settle);
        assert(steps@ =~= self.transfer_steps(drive, block, command));
        steps
    }

    /// Plans the start of a read of `block` from `drive`. Once the device
    /// is no longer busy, 256 words are to be read from the data port and
    /// unpacked with `unpack_words`.
    pub fn read(&self, drive: u8, block: u32) -> (steps: Vec<BusStep>)
        requires
            self.wf(),
            drive <= 1,
        ensures
            steps@ == self.transfer_steps(drive, block, DriveCommand::Read),
    {
        self.transfer(drive, block, DriveCommand::Read)
    }

    /// Plans the start of a write to `block` of `drive`. Once the device
    /// is no longer busy, the 256 words that `pack_words` yields are to be
    /// written to the data port, and the device waited for once more.
    pub fn write(&self, drive: u8, block: u32) -> (steps: Vec<BusStep>)
        requires
            self.wf(),
            drive <= 1,
        ensures
            steps@ == self.transfer_steps(drive, block, DriveCommand::Write),
    {
        self.transfer(drive, block, DriveCommand::Write)
    }

    /// Plans the steps that ask `drive` to identify itself. What the
    /// device answers is judged by `identify_present`, `identify_is_ata`
    /// and `identify_poll`.
    pub fn identify_drive(&self, drive: u8) -> (steps: Vec<BusStep>)
        requires
            self.wf(),
            drive <= 1,
        ensures
            steps@ == self.identify_steps(drive),
    {
        let mut steps = self.reset();
        let mut settle = self.wait();
        steps.append(&mut settle);
        steps.push(BusStep::Out(self.port(Register::Drive), 0xA0 | (drive << 4)));
        steps.push(BusStep::Out(self.port(Register::SectorCount), 0));
        steps.push(BusStep::Out(self.port(Register::Lba0), 0));
        steps.push(BusStep::Out(self.port(Register::Lba1), 0));
        steps.push(BusStep::Out(self.port(Register::Lba2), 0));
        steps.push(BusStep::Out(self.port(Register::Command), DriveCommand::Identify.code()));
        assert(steps@ =~= self.identify_steps(drive));
        steps
    }
}

/// Whether the status read right after the identify command shows a device
/// at all: a status of zero means there is none.
pub fn identify_present(status: u8) -> (r: bool)
    ensures
        r == (status != 0),
{
    status != 0
}

/// Whether the device that went idle after the identify command is an ATA
/// drive: any other kind leaves a signature in the two upper address
/// registers.
pub fn identify_is_ata(lba1: u8, lba2: u8) -> (r: bool)
    ensures
        r == (lba1 == 0 && lba2 == 0),
{
    lba1 == 0 && lba2 == 0
}

/// What the `polls`-th status read (counted from 0) means while waiting
/// for the identify block.
pub open spec fn spec_identify_poll(status: u8, polls: u32) -> Poll {
    if polls >= 256 {
        Poll::TimedOut
    } else if DriveStatus::Error.spec_is_set(status) {
        Poll::Failed
    } else if DriveStatus::Ready.spec_is_set(status) {
        Poll::Ready
    } else {
        Poll::Again
    }
}

/// Judges the `polls`-th status read (counted from 0) while waiting for
/// the identify block: the wait is given up at the 256th.
pub fn identify_poll(status: u8, polls: u32) -> (r: Poll)
    ensures
        r == spec_identify_poll(status, polls),
{
    if polls >= 256 {
        Poll::TimedOut
    } else if Bus::is_error(status) {
        Poll::Failed
    } else if Bus::is_ready(status) {
        Poll::Ready
    } else {
        Poll::Again
    }
}

/// Spreads the 256 words of a sector read over 512 bytes: of each word the
/// low byte comes first.
pub fn unpack_words(words: &[u16; 256]) -> (buf: [u8; 512])
    ensures
        forall|i: int| 0 <= i < 256 ==> buf[2 * i] == (words[i] & 0xff) as u8 && buf[2 * i + 1] == (words[i] >> 8) as u8,
{
    let mut buf = [0u8; 512];
    let mut i: usize = 0;
    while i < 256
        invariant
            i <= 256,
            forall|j: int| 0 <= j < i ==> buf[2 * j] == (words[j] & 0xff) as u8 && buf[2 * j + 1] == (words[j] >> 8) as u8,
        decreases 256 - i,
    {
        let data = words[i];
        let low = get_bits_u16(data, 0, 8);
        let high = get_bits_u16(data, 8, 16);
        assert(bit_range16(data, 0, 8) == data & 0xff && (data & 0xff) < 256) by (bit_vector);
        assert(bit_range16(data, 8, 16) == data >> 8 && (data >> 8) < 256) by (bit_vector);
        buf[i * 2] = low as u8;
        buf[i * 2 + 1] = high as u8;
        i += 1;
    }
    buf
}

/// Gathers the 512 bytes of a sector into the 256 words that are written
/// to the data port: of each pair the first byte is the low one.
pub fn pack_words(buf: &[u8; 512]) -> (words: [u16; 256])
    ensures
        forall|i: int| 0 <= i < 256 ==> words[i] == (buf[2 * i] as u16) | ((buf[2 * i + 1] as u16) << 8),
{
    let mut words = [0u16; 256];
    let mut i: usize = 0;
    while i < 256
        invariant
            i <= 256,
            forall|j: int| 0 <= j < i ==> words[j] == (buf[2 * j] as u16) | ((buf[2 * j + 1] as u16) << 8),
        decreases 256 - i,
    {
        let low = buf[i * 2] as u16;
        let high = buf[i * 2 + 1] as u16;
        assert(low << 8 >> 8 == low && high << 8 >> 8 == high) by (bit_vector)
            requires
                low < 256,
                high < 256,
        ;
        let data = set_bits_u16(0, 0, 8, low);
        let data = set_bits_u16(data, 8, 16, high);
        assert(((0u16 & !(!0u16 << 8 >> 8 >> 0 << 0)) | (low << 0)) == low) by (bit_vector)
            requires
                low < 256,
        ;
        assert(((low & !(!0u16 << 0 >> 0 >> 8 << 8)) | (high << 8)) == low | (high << 8)) by (bit_vector)
            requires
                low < 256,
        ;
        words[i] = data;
        i += 1;
    }
    words
}

} // verus!

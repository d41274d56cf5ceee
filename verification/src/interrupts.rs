//! Interrupt vectors of the two chained interrupt controllers.

use vstd::prelude::*;

verus! {

/// Vector offset of the first interrupt controller.
pub const PIC_1_OFFSET: u8 = 32;

/// Vector offset of the second interrupt controller.
pub const PIC_2_OFFSET: u8 = 40;

/// Index of the stack that the double-fault handler runs on.
pub const DOUBLE_FAULT_IST_INDEX: u16 = 0;

/// Data port of the keyboard controller.
pub const KEYBOARD_DATA_PORT: u16 = 0x60;

/// The hardware interrupts the kernel handles.
#[derive(Clone, Copy, Debug, PartialEq, Eq, Structural)]
pub enum InterruptIndex {
    Timer,
    Keyboard,
}

impl InterruptIndex {
    /// The interrupt vector: the line's number on top of the first
    /// controller's offset.
    pub open spec fn vector(self) -> u8 {
        match self {
            InterruptIndex::Timer => 32,
            InterruptIndex::Keyboard => 33,
        }
    }

    /// The interrupt vector as a byte.
    pub fn as_u8(self) -> (v: u8)
        ensures
            v == self.vector(),
            v == PIC_1_OFFSET + (if self == InterruptIndex::Timer {
                0int
            } else {
                1int
            }),
    {
        match self {
            InterruptIndex::Timer => PIC_1_OFFSET,
            InterruptIndex::Keyboard => PIC_1_OFFSET + 1,
        }
    }

    /// The interrupt vector as an index into the descriptor table.
    pub fn as_usize(self) -> (v: usize)
        ensures
            v == self.vector(),
    {
        self.as_u8() as usize
    }
}

} // verus!

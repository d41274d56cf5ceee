//! The order in which the kernel brings the machine up, and what a failed
//! stage means.

use vstd::prelude::*;

verus! {

/// The stages of bringing the machine up.
#[derive(Clone, Copy, Debug, PartialEq, Eq, Structural)]
pub enum Stage {
    /// Load the descriptor table and the task state segment.
    Gdt,
    /// Load the interrupt descriptor table.
    Idt,
    /// Program the interrupt controllers; timer and keyboard stay unmasked.
    Pic,
    /// Enable interrupts.
    Interrupts,
    /// Program the interval timer.
    Timer,
    /// Initialise the heap.
    Heap,
    /// Register the disk channels and identify the drives.
    Disks,
    /// Look for a filesystem, or offer to create one.
    Filesystem,
}

/// What to do once a stage has run.
#[derive(Clone, Copy, Debug, PartialEq, Eq, Structural)]
pub enum Next {
    /// Go on with this stage.
    Run(Stage),
    /// The machine cannot be brought up: panic.
    Halt,
    /// The machine is up.
    Done,
}

/// The stages in the order they run.
pub open spec fn order() -> Seq<Stage> {
    seq![
        Stage::Gdt,
        Stage::Idt,
        Stage::Pic,
        Stage::Interrupts,
        Stage::Timer,
        Stage::Heap,
        Stage::Disks,
        Stage::Filesystem,
    ]
}

impl Stage {
    /// Position of the stage in the order.
    pub open spec fn index(self) -> int {
        match self {
            Stage::Gdt => 0,
            Stage::Idt => 1,
            Stage::Pic => 2,
            Stage::Interrupts => 3,
            Stage::Timer => 4,
            Stage::Heap => 5,
            Stage::Disks => 6,
            Stage::Filesystem => 7,
        }
    }

    /// Whether the kernel cannot go on when this stage fails: everything up
    /// to enabling interrupts, and the heap. A failure of a later stage
    /// only leaves the kernel without disks or without a filesystem.
    pub open spec fn vital(self) -> bool {
        self.index() <= 3 || self == Stage::Heap
    }
}

/// What follows a stage, given whether it succeeded.
pub open spec fn follows(stage: Stage, succeeded: bool) -> Next {
    if !succeeded && stage.vital() {
        Next::Halt
    } else if stage.index() + 1 < order().len() {
        Next::Run(order()[stage.index() + 1])
    } else {
        Next::Done
    }
}

/// The stage to begin with.
pub fn first() -> (stage: Stage)
    ensures
        stage == order()[0],
{
    Stage::Gdt
}

/// What to do once `stage` has run, given whether it succeeded.
pub fn after(stage: Stage, succeeded: bool) -> (next: Next)
    ensures
        next == follows(stage, succeeded),
{
    let vital = match stage {
        Stage::Gdt | Stage::Idt | Stage::Pic | Stage::Interrupts | Stage::Heap => true,
        Stage::Timer | Stage::Disks | Stage::Filesystem => false,
    };
    if !succeeded && vital {
        return Next::Halt;
    }
    match stage {
        Stage::Gdt => Next::Run(Stage::Idt),
        Stage::Idt => Next::Run(Stage::Pic),
        Stage::Pic => Next::Run(Stage::Interrupts),
        Stage::Interrupts => Next::Run(Stage::Timer),
        Stage::Timer => Next::Run(Stage::Heap),
        Stage::Heap => Next::Run(Stage::Disks),
        Stage::Disks => Next::Run(Stage::Filesystem),
        Stage::Filesystem => Next::Done,
    }
}

/// While every stage succeeds, the stages run one after the other in the
/// fixed order, each exactly once, and the machine is up after the last.
pub proof fn lemma_order_is_followed(k: int)
    requires
        0 <= k < order().len(),
    ensures
        order()[k].index() == k,
        follows(order()[k], true) == if k + 1 < order().len() {
            Next::Run(order()[k + 1])
        } else {
            Next::Done
        },
{
}

} // verus!

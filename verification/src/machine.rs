//! Machine constants: interrupt vectors and the QEMU exit device.

use vstd::prelude::*;

verus! {

/// First vector of the primary PIC after remapping.
pub const PIC_1_OFFSET: u8 = 32;
/// First vector of the secondary PIC after remapping.
pub const PIC_2_OFFSET: u8 = 40;

/// Hardware interrupts the kernel handles.
#[derive(Debug, Clone, Copy, PartialEq, Eq, Structural)]
pub enum Irq {
    Timer,
    Keyboard,
}

impl Irq {
    /// The interrupt vector: the timer is the first vector of the primary
    /// PIC, the keyboard the next.
    pub open spec fn spec_vector(self) -> u8 {
        match self {
            Irq::Timer => PIC_1_OFFSET,
            Irq::Keyboard => (PIC_1_OFFSET + 1) as u8,
        }
    }

    pub fn vector(self) -> (v: u8)
        ensures
            v == self.spec_vector(),
    {
        match self {
            Irq::Timer => PIC_1_OFFSET,
            Irq::Keyboard => PIC_1_OFFSET + 1,
        }
    }
}

/// The value the kernel writes to QEMU's `isa-debug-exit` port.
#[derive(Debug, Clone, Copy, PartialEq, Eq, Structural)]
pub enum QemuExitCode {
    Success,
    Failed,
}

impl QemuExitCode {
    pub open spec fn spec_code(self) -> u32 {
        match self {
            QemuExitCode::Success => 0x10,
            QemuExitCode::Failed => 0x11,
        }
    }

    pub fn code(self) -> (c: u32)
        ensures
            c == self.spec_code(),
    {
        match self {
            QemuExitCode::Success => 0x10,
            QemuExitCode::Failed => 0x11,
        }
    }

    /// The exit status QEMU reports after the kernel wrote `self`:
    /// `(code << 1) | 1`.
    pub open spec fn spec_status(self) -> i32 {
        (self.spec_code() * 2 + 1) as i32
    }

    pub fn status(self) -> (s: i32)
        ensures
            s == self.spec_status(),
    {
        match self {
            QemuExitCode::Success => 33,
            QemuExitCode::Failed => 35,
        }
    }
}

/// What the page-fault handler does.
#[derive(Debug, Clone, Copy, PartialEq, Eq, Structural)]
pub enum FaultAction {
    /// A user-mode fault: log it and halt the CPU.
    HaltUser,
    /// An expected kernel fault: resume at the fixup address.
    Resume(usize),
    /// A kernel bug: log it and report failure.
    Fail,
}

/// The action for a page fault taken with the code segment selector `cs`
/// while `fixup` is the expected-fault fixup address (zero when none is
/// expected): the low two bits of the selector are the privilege level the
/// fault came from.
pub fn page_fault_action(cs: u64, fixup: usize) -> (a: FaultAction)
    ensures
        cs % 4 == 3 ==> a == FaultAction::HaltUser,
        cs % 4 != 3 && fixup != 0 ==> a == FaultAction::Resume(fixup),
        cs % 4 != 3 && fixup == 0 ==> a == FaultAction::Fail,
{
    let from_user = (cs & 3) == 3;
    assert(from_user == (cs % 4 == 3)) by (bit_vector)
        requires
            from_user == ((cs & 3u64) == 3u64),
    ;
    if from_user {
        FaultAction::HaltUser
    } else if fixup != 0 {
        FaultAction::Resume(fixup)
    } else {
        FaultAction::Fail
    }
}

} // verus!

//! The sequence of control-line levels that resets a board into its
//! bootloader, where DTR and RTS drive the bootloader pin and `!RESET`.

use vstd::prelude::*;

verus! {

/// A modem control line of the serial port.
#[derive(Debug, Clone, Copy, PartialEq, Eq, Structural)]
pub enum ControlLine {
    Dtr,
    Rts,
}

/// One step of entering the bootloader.
#[derive(Debug, Clone, Copy, PartialEq, Eq, Structural)]
pub enum BootStep {
    /// Drive the line to the level.
    Drive(ControlLine, bool),
    /// Wait 2 ms, so that the bootloader pin is still held when the chip
    /// comes out of reset.
    Settle,
}

/// The line wired to the bootloader pin: DTR, or RTS when `inverted`.
pub open spec fn bootloader_line(inverted: bool) -> ControlLine {
    if inverted {
        ControlLine::Rts
    } else {
        ControlLine::Dtr
    }
}

/// The line wired to `!RESET`: RTS, or DTR when `inverted`.
pub open spec fn reset_line(inverted: bool) -> ControlLine {
    if inverted {
        ControlLine::Dtr
    } else {
        ControlLine::Rts
    }
}

/// The steps that reset the chip into its bootloader: assert the
/// bootloader pin, pulse `!RESET`, wait, then release the bootloader pin.
/// `bootloader_active_high` gives the polarity of the bootloader pin.
pub fn bootloader_entry_steps(inverted: bool, bootloader_active_high: bool) -> (r: Vec<BootStep>)
    ensures
        r@ == seq![
            BootStep::Drive(bootloader_line(inverted), !bootloader_active_high),
            BootStep::Drive(reset_line(inverted), false),
            BootStep::Drive(reset_line(inverted), true),
            BootStep::Drive(reset_line(inverted), false),
            BootStep::Settle,
            BootStep::Drive(bootloader_line(inverted), bootloader_active_high),
        ],
{
    let (bootloader, reset) = if inverted {
        (ControlLine::Rts, ControlLine::Dtr)
    } else {
        (ControlLine::Dtr, ControlLine::Rts)
    };
    let mut steps: Vec<BootStep> = Vec::with_capacity(6);
    steps.push(BootStep::Drive(bootloader, !bootloader_active_high));
    steps.push(BootStep::Drive(reset, false));
    steps.push(BootStep::Drive(reset, true));
    steps.push(BootStep::Drive(reset, false));
    steps.push(BootStep::Settle);
    steps.push(BootStep::Drive(bootloader, bootloader_active_high));
    assert(steps@ =~= seq![
        BootStep::Drive(bootloader_line(inverted), !bootloader_active_high),
        BootStep::Drive(reset_line(inverted), false),
        BootStep::Drive(reset_line(inverted), true),
        BootStep::Drive(reset_line(inverted), false),
        BootStep::Settle,
        BootStep::Drive(bootloader_line(inverted), bootloader_active_high),
    ]);
    steps
}

} // verus!

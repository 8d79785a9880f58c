//! Racing devices that run command tapes around a track.

use vstd::prelude::*;

verus! {

/// One command of a device's tape or of the track.
#[derive(Clone, Copy, PartialEq, Eq, Structural)]
pub enum Command {
    Inc,
    Dec,
    Stay,
    StartEnd,
}

/// A racing device: its running total, name, current value, and tape.
pub struct Device {
    pub total: i64,
    pub name: Vec<u8>,
    pub val: i64,
    pub commands: Vec<Command>,
}

/// The command a device executes at `step` on `track`: a concrete track
/// command overrides the tape except where it yields.
pub open spec fn effective_command(commands: Seq<Command>, step: int, track: Option<Command>) -> Command {
    match track {
        Option::None => commands[step % commands.len() as int],
        Option::Some(Command::StartEnd) => commands[step % commands.len() as int],
        Option::Some(Command::Stay) => commands[step % commands.len() as int],
        Option::Some(c) => c,
    }
}

impl Device {
    /// Back to the starting line: no total, value ten.
    pub fn reset(&mut self)
        ensures
            final(self).total == 0,
            final(self).val == 10,
            final(self).name == old(self).name,
            final(self).commands == old(self).commands,
    {
        self.total = 0;
        self.val = 10;
    }

    /// Executes one step: the effective command moves the value, which then
    /// accrues into the total.
    pub fn step(&mut self, step: usize, track: Option<Command>)
        requires
            old(self).commands@.len() >= 1,
            -0x10_0000_0000 <= old(self).val <= 0x10_0000_0000,
            -0x1000_0000_0000_0000 <= old(self).total <= 0x1000_0000_0000_0000,
        ensures
            final(self).val as int == (match effective_command(
                old(self).commands@,
                step as int,
                track,
            ) {
                Command::Inc => old(self).val + 1,
                Command::Dec => old(self).val - 1,
                Command::Stay => old(self).val as int,
                Command::StartEnd => old(self).val as int,
            }),
            final(self).total == old(self).total + final(self).val,
            final(self).name == old(self).name,
            final(self).commands == old(self).commands,
    {
        let cmd = match track {
            Option::None => self.commands[step % self.commands.len()],
            Option::Some(Command::StartEnd) => self.commands[step % self.commands.len()],
            Option::Some(Command::Stay) => self.commands[step % self.commands.len()],
            Option::Some(c) => c,
        };
        match cmd {
            Command::Inc => {
                self.val = self.val + 1;
            },
            Command::Dec => {
                self.val = self.val - 1;
            },
            Command::StartEnd => {},
            Command::Stay => {},
        }
        self.total = self.total + self.val;
    }
}

/// Race solver: the track commands and the competing devices.
pub struct Day07 {
    track: Vec<Command>,
    devices: Vec<Device>,
}

impl Day07 {
    /// An empty race.
    pub fn new() -> (r: Self)
        ensures
            r.track_view().len() == 0,
            r.devices_len() == 0,
    {
        Day07 { track: Vec::new(), devices: Vec::new() }
    }

    pub closed spec fn track_view(&self) -> Seq<Command> {
        self.track@
    }

    pub closed spec fn devices_len(&self) -> int {
        self.devices@.len() as int
    }

    /// Adds one track command.
    pub fn push_track(&mut self, c: Command)
        ensures
            final(self).track_view() == old(self).track_view().push(c),
            final(self).devices_len() == old(self).devices_len(),
    {
        self.track.push(c);
    }

    /// Adds one device.
    pub fn push_device(&mut self, d: Device)
        ensures
            final(self).devices_len() == old(self).devices_len() + 1,
            final(self).track_view() == old(self).track_view(),
    {
        self.devices.push(d);
    }
}

} // verus!

//! Commands that callers send to the worker, and the identity that decides
//! which commands supersede one another.
use vstd::prelude::*;

verus! {

/// Identifier of one board (sub-device) behind the controller.
#[derive(Clone, Copy, Debug, PartialEq, Eq, Hash, Structural)]
pub struct BoardId(pub u64);

/// An LED colour.
#[derive(Clone, Copy, Debug, PartialEq, Eq, Hash, Structural)]
pub struct Rgb {
    pub red: u8,
    pub green: u8,
    pub blue: u8,
}

/// What a command mutates, without the new value: two commands with equal
/// targets supersede one another.
#[derive(Clone, Copy, Debug, PartialEq, Eq, Hash, Structural)]
pub enum Target {
    KeyMap { board: BoardId, layer: u8, output: u8, input: u8 },
    Color { board: BoardId, index: u8 },
    Brightness { board: BoardId, index: u8 },
    Mode { board: BoardId, layer: u8 },
    LedSave { board: BoardId },
    MatrixGetRate,
    Refresh,
    Exit,
}

/// One request to the worker. The poll rate is a number of milliseconds;
/// `None` turns timed polling off.
#[derive(Clone, Copy, Debug, PartialEq, Eq, Structural)]
pub enum Command {
    KeyMap { board: BoardId, layer: u8, output: u8, input: u8, value: u16 },
    Color { board: BoardId, index: u8, color: Rgb },
    Brightness { board: BoardId, index: u8, brightness: i32 },
    Mode { board: BoardId, layer: u8, mode: u8, speed: u8 },
    LedSave { board: BoardId },
    MatrixGetRate { rate: Option<u64> },
    Refresh,
    Exit,
}

impl Command {
    /// The target of a command: its kind and key, the payload left out.
    pub open spec fn target_spec(self) -> Target {
        match self {
            Command::KeyMap { board, layer, output, input, .. } => Target::KeyMap {
                board,
                layer,
                output,
                input,
            },
            Command::Color { board, index, .. } => Target::Color { board, index },
            Command::Brightness { board, index, .. } => Target::Brightness { board, index },
            Command::Mode { board, layer, .. } => Target::Mode { board, layer },
            Command::LedSave { board } => Target::LedSave { board },
            Command::MatrixGetRate { .. } => Target::MatrixGetRate,
            Command::Refresh => Target::Refresh,
            Command::Exit => Target::Exit,
        }
    }

    /// Whether the command is carried out by a call on the device.
    pub open spec fn is_device_call(self) -> bool {
        match self {
            Command::KeyMap { .. } | Command::Color { .. } | Command::Brightness { .. }
            | Command::Mode { .. } | Command::LedSave { .. } => true,
            _ => false,
        }
    }

    pub fn target(&self) -> (r: Target)
        ensures
            r == self.target_spec(),
    {
        match *self {
            Command::KeyMap { board, layer, output, input, .. } => Target::KeyMap {
                board,
                layer,
                output,
                input,
            },
            Command::Color { board, index, .. } => Target::Color { board, index },
            Command::Brightness { board, index, .. } => Target::Brightness { board, index },
            Command::Mode { board, layer, .. } => Target::Mode { board, layer },
            Command::LedSave { board } => Target::LedSave { board },
            Command::MatrixGetRate { .. } => Target::MatrixGetRate,
            Command::Refresh => Target::Refresh,
            Command::Exit => Target::Exit,
        }
    }
}

} // verus!

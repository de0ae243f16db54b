use vstd::prelude::*;

verus! {

/// An axis of the four-dimensional translation offset.
#[derive(Clone, Copy, Debug, PartialEq, Eq, Structural)]
pub enum Axis {
    X,
    Y,
    Z,
    W,
}

/// What a key press asks of the render state.
#[derive(Clone, Copy, Debug, PartialEq, Eq, Structural)]
pub enum Command {
    /// Start or stop the rotation.
    ToggleRotate,
    /// Move the offset one step along `axis`, forward or back.
    Translate { axis: Axis, forward: bool },
}

/// The command bound to the key `c`, if any.
pub open spec fn command_spec(c: char) -> Option<Command> {
    if c == 'r' {
        Some(Command::ToggleRotate)
    } else if c == 'w' || c == 's' {
        Some(Command::Translate { axis: Axis::Z, forward: c == 'w' })
    } else if c == 'd' || c == 'a' {
        Some(Command::Translate { axis: Axis::X, forward: c == 'd' })
    } else if c == 'q' || c == 'e' {
        Some(Command::Translate { axis: Axis::Y, forward: c == 'q' })
    } else if c == 'p' || c == 'l' {
        Some(Command::Translate { axis: Axis::W, forward: c == 'p' })
    } else {
        None
    }
}

/// Looks up the command bound to a pressed key: `r` toggles rotation, `w`/`s`
/// move along z, `d`/`a` along x, `q`/`e` along y and `p`/`l` along w.
pub fn key_command(c: char) -> (r: Option<Command>)
    ensures
        r == command_spec(c),
{
    if c == 'r' {
        Some(Command::ToggleRotate)
    } else if c == 'w' || c == 's' {
        Some(Command::Translate { axis: Axis::Z, forward: c == 'w' })
    } else if c == 'd' || c == 'a' {
        Some(Command::Translate { axis: Axis::X, forward: c == 'd' })
    } else if c == 'q' || c == 'e' {
        Some(Command::Translate { axis: Axis::Y, forward: c == 'q' })
    } else if c == 'p' || c == 'l' {
        Some(Command::Translate { axis: Axis::W, forward: c == 'p' })
    } else {
        None
    }
}

/// Side of the square view for a terminal of `cols` columns and `rows` rows:
/// each cell shows two pixels stacked, and two rows are kept for the status
/// line. The doubling wraps as `u16` arithmetic does.
pub fn view_size(cols: u16, rows: u16) -> (r: u16)
    requires
        rows >= 2,
    ensures
        r == if (cols as int) < ((rows - 2) * 2) % 0x1_0000 {
            cols as int
        } else {
            ((rows - 2) * 2) % 0x1_0000
        },
{
    let doubled: u16 = ((((rows - 2) as u32) * 2) % 0x1_0000) as u16;
    if cols < doubled {
        cols
    } else {
        doubled
    }
}

} // verus!

//! What a host loop does in answer to what its window reports. The loop
//! itself, the window and the device stay with the host; here are only its
//! decisions.

use vstd::prelude::*;

verus! {

/// What a window reports to its host.
#[derive(Clone, Copy, Debug)]
pub enum WindowInput {
    /// The user asked to close the window.
    CloseRequested,
    /// The window wants its content drawn.
    RedrawRequested,
    /// The window has a new size, in pixels.
    Resized { width: u32, height: u32 },
    /// A key changed: whether it is the escape key, and whether it went down.
    Key { escape: bool, pressed: bool },
    /// Anything else.
    Other,
}

/// What the host does in answer.
#[derive(Clone, Copy, Debug)]
pub enum Reaction {
    /// Leave the loop.
    Exit,
    /// Begin a frame, draw the figure if there is one, end the frame.
    Frame,
    /// Hand the new size to the backend.
    Resize { width: u32, height: u32 },
    /// Nothing.
    Nothing,
}

/// The reaction to an input: a close request and a press of the escape key
/// end the loop, a redraw request draws a frame, a new size goes to the
/// backend, and nothing else has an effect.
pub open spec fn reaction_to(input: WindowInput) -> Reaction {
    match input {
        WindowInput::CloseRequested => Reaction::Exit,
        WindowInput::RedrawRequested => Reaction::Frame,
        WindowInput::Resized { width, height } => Reaction::Resize { width, height },
        WindowInput::Key { escape, pressed } => if escape && pressed {
            Reaction::Exit
        } else {
            Reaction::Nothing
        },
        WindowInput::Other => Reaction::Nothing,
    }
}

/// The reaction to an input.
pub fn react(input: WindowInput) -> (r: Reaction)
    ensures
        r == reaction_to(input),
{
    match input {
        WindowInput::CloseRequested => Reaction::Exit,
        WindowInput::RedrawRequested => Reaction::Frame,
        WindowInput::Resized { width, height } => Reaction::Resize { width, height },
        WindowInput::Key { escape, pressed } => {
            if escape && pressed {
                Reaction::Exit
            } else {
                Reaction::Nothing
            }
        },
        WindowInput::Other => Reaction::Nothing,
    }
}

/// Whether a surface of this size has an area: only such a size is taken
/// into a surface's configuration.
pub fn has_area(width: u32, height: u32) -> (r: bool)
    ensures
        r == (width > 0 && height > 0),
{
    width > 0 && height > 0
}

} // verus!

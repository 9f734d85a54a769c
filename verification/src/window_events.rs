//! How the applications answer window events.
//!
//! The windowing system's events are read by the caller and handed over in
//! the plain form below; the answer says what the caller does next.
use vstd::prelude::*;

verus! {

/// A key on the keyboard, as far as the applications tell keys apart.
#[derive(Clone, Copy, Debug, PartialEq, Eq, Structural)]
pub enum Key {
    Escape,
    KeyR,
    Other,
}

/// A window event, as far as the applications tell events apart.
#[derive(Clone, Copy, Debug, PartialEq, Eq, Structural)]
pub enum WindowInput {
    CloseRequested,
    Resized,
    RedrawRequested,
    /// A key went down.
    KeyPressed(Key),
    /// Anything else, key releases included.
    Other,
}

/// What the cube application does with a window event.
#[derive(Clone, Copy, Debug, PartialEq, Eq, Structural)]
pub enum AppCommand {
    /// Leave the event loop.
    Exit,
    /// Count the frame and draw it with the active renderer.
    Redraw,
    /// Nothing.
    Ignore,
}

/// Whether the cube application passes `input` to its active renderer
/// before looking at it itself: everything but a close request and a redraw
/// request is, when there is a renderer.
pub open spec fn spec_asks_renderer(input: WindowInput, pool_is_empty: bool) -> bool {
    !pool_is_empty && input != WindowInput::CloseRequested && input
        != WindowInput::RedrawRequested
}

/// The cube application's answer to `input`, where `renderer_handled` says
/// whether the active renderer took the event (false when it was not asked).
/// A close request leaves, a redraw request draws, and Escape leaves when no
/// renderer took it.
pub open spec fn spec_app_command(input: WindowInput, renderer_handled: bool) -> AppCommand {
    match input {
        WindowInput::CloseRequested => AppCommand::Exit,
        WindowInput::RedrawRequested => AppCommand::Redraw,
        WindowInput::KeyPressed(Key::Escape) => if renderer_handled {
            AppCommand::Ignore
        } else {
            AppCommand::Exit
        },
        _ => AppCommand::Ignore,
    }
}

/// Whether the cube application passes `input` to its active renderer.
pub fn asks_renderer(input: WindowInput, pool_is_empty: bool) -> (r: bool)
    ensures
        r == spec_asks_renderer(input, pool_is_empty),
{
    if pool_is_empty {
        return false;
    }
    match input {
        WindowInput::CloseRequested => false,
        WindowInput::RedrawRequested => false,
        _ => true,
    }
}

/// The cube application's answer to `input`, once the active renderer has
/// said whether it took it.
pub fn app_command(input: WindowInput, renderer_handled: bool) -> (r: AppCommand)
    ensures
        r == spec_app_command(input, renderer_handled),
{
    match input {
        WindowInput::CloseRequested => AppCommand::Exit,
        WindowInput::RedrawRequested => AppCommand::Redraw,
        WindowInput::KeyPressed(Key::Escape) => if renderer_handled {
            AppCommand::Ignore
        } else {
            AppCommand::Exit
        },
        _ => AppCommand::Ignore,
    }
}

/// Keyboard state of the procedural cube renderer.
#[derive(Clone, Copy, Debug, PartialEq, Eq, Structural)]
pub struct ProcCubeControls {
    /// The cube turns a little every frame.
    pub auto_rotate: bool,
}

impl ProcCubeControls {
    /// The controls after `input` and whether the renderer took it: R toggles
    /// auto-rotation and is taken; every other event is left alone.
    pub open spec fn spec_after(self, input: WindowInput) -> (ProcCubeControls, bool) {
        if input == WindowInput::KeyPressed(Key::KeyR) {
            (ProcCubeControls { auto_rotate: !self.auto_rotate }, true)
        } else {
            (self, false)
        }
    }

    /// Auto-rotation starts off.
    pub fn new() -> (r: ProcCubeControls)
        ensures
            !r.auto_rotate,
    {
        ProcCubeControls { auto_rotate: false }
    }

    /// R toggles auto-rotation and is taken; every other event is left to
    /// the application.
    pub fn handle_window_event(&mut self, input: WindowInput) -> (handled: bool)
        ensures
            (*final(self), handled) == old(self).spec_after(input),
    {
        match input {
            WindowInput::KeyPressed(Key::KeyR) => {
                self.auto_rotate = !self.auto_rotate;
                true
            },
            _ => false,
        }
    }
}

/// Pressing R twice leaves auto-rotation as it was.
pub proof fn lemma_toggle_twice(c: ProcCubeControls)
    ensures
        c.spec_after(WindowInput::KeyPressed(Key::KeyR)).0.spec_after(
            WindowInput::KeyPressed(Key::KeyR),
        ).0 == c,
{
}

/// The cube application leaves only on a close request, or on Escape that
/// no renderer took; it draws exactly on a redraw request; it hands the
/// renderer everything but close and redraw requests when it has one.
pub proof fn lemma_app_command_causes(input: WindowInput, renderer_handled: bool, pool_is_empty: bool)
    ensures
        (spec_app_command(input, renderer_handled) == AppCommand::Exit) <==> (input
            == WindowInput::CloseRequested || (input == WindowInput::KeyPressed(Key::Escape)
            && !renderer_handled)),
        (spec_app_command(input, renderer_handled) == AppCommand::Redraw) <==> input
            == WindowInput::RedrawRequested,
        spec_asks_renderer(input, pool_is_empty) <==> (!pool_is_empty && input
            != WindowInput::CloseRequested && input != WindowInput::RedrawRequested),
{
}

/// Only R changes the procedural cube's controls, and only R is taken: it
/// turns auto-rotation on when off and off when on. Every other event leaves
/// the controls as they are and is left to the application.
pub proof fn lemma_only_r_toggles(c: ProcCubeControls, input: WindowInput)
    ensures
        input != WindowInput::KeyPressed(Key::KeyR) ==> c.spec_after(input) == (c, false),
        input == WindowInput::KeyPressed(Key::KeyR) ==> c.spec_after(input).1 && c.spec_after(
            input,
        ).0.auto_rotate != c.auto_rotate,
{
}

} // verus!

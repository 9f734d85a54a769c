//! The frame loop of the scene viewer, as a state machine.
//!
//! The caller owns the window, the swapchain and the GPU queue. It hands
//! every window event and the outcome of every piece of GPU work to
//! [`FrameLoop::step`], performs the action that comes back, and reports its
//! outcome as the next event. A resize marks the swapchain stale; the next
//! frame rebuilds it before acquiring an image. An image that turns out to be
//! out of date skips the frame; any other failure aborts.
use vstd::prelude::*;
use crate::window_events::{Key, WindowInput};

verus! {

/// Where the drawing of the current frame stands.
#[derive(Clone, Copy, Debug, PartialEq, Eq, Structural)]
pub enum FramePhase {
    /// No frame is being drawn.
    Idle,
    /// The swapchain is being rebuilt for the new window size.
    Recreating,
    /// The next swapchain image is being acquired.
    Acquiring,
    /// The frame has been recorded and is being executed and presented.
    Presenting,
}

/// State of the frame loop.
#[derive(Clone, Copy, Debug, PartialEq, Eq, Structural)]
pub struct FrameLoop {
    pub phase: FramePhase,
    /// The window changed since the swapchain was built.
    pub recreate_swapchain: bool,
}

/// What the caller reports.
#[derive(Clone, Copy, Debug, PartialEq, Eq, Structural)]
pub enum FrameEvent {
    /// An event of the window.
    Window(WindowInput),
    /// The swapchain was rebuilt.
    SwapchainRecreated,
    /// The swapchain image with this index was acquired.
    ImageAcquired(u32),
    /// The swapchain no longer matches the surface.
    AcquireOutOfDate,
    /// Acquiring failed for another reason.
    AcquireFailed,
    /// The frame was executed, presented and flushed.
    Presented,
    /// Executing or presenting the frame failed.
    PresentFailed,
}

/// What the caller does next.
#[derive(Clone, Copy, Debug, PartialEq, Eq, Structural)]
pub enum FrameAction {
    /// Wait for the next event.
    Nothing,
    /// Leave the event loop.
    Exit,
    /// Rebuild the swapchain, its render pass, viewport and framebuffers for
    /// the window's current size.
    RecreateSwapchain,
    /// Acquire the next swapchain image.
    AcquireImage,
    /// Record the frame into the framebuffer of this image, execute it and
    /// present it.
    DrawAndPresent(u32),
    /// Stop with an error: the GPU work failed.
    Abort,
}

impl FrameLoop {
    /// Next state and action for `event`.
    pub open spec fn spec_step(self, event: FrameEvent) -> (FrameLoop, FrameAction) {
        match event {
            FrameEvent::Window(WindowInput::CloseRequested) => (self, FrameAction::Exit),
            FrameEvent::Window(WindowInput::KeyPressed(Key::Escape)) => (self, FrameAction::Exit),
            FrameEvent::Window(WindowInput::Resized) => (
                FrameLoop { recreate_swapchain: true, ..self },
                FrameAction::Nothing,
            ),
            FrameEvent::Window(WindowInput::RedrawRequested) => if self.phase
                == FramePhase::Idle {
                if self.recreate_swapchain {
                    (
                        FrameLoop { phase: FramePhase::Recreating, ..self },
                        FrameAction::RecreateSwapchain,
                    )
                } else {
                    (
                        FrameLoop { phase: FramePhase::Acquiring, ..self },
                        FrameAction::AcquireImage,
                    )
                }
            } else {
                (self, FrameAction::Nothing)
            },
            FrameEvent::Window(_) => (self, FrameAction::Nothing),
            FrameEvent::SwapchainRecreated => if self.phase == FramePhase::Recreating {
                (
                    FrameLoop { phase: FramePhase::Acquiring, recreate_swapchain: false },
                    FrameAction::AcquireImage,
                )
            } else {
                (self, FrameAction::Nothing)
            },
            FrameEvent::ImageAcquired(index) => if self.phase == FramePhase::Acquiring {
                (FrameLoop { phase: FramePhase::Presenting, ..self }, FrameAction::DrawAndPresent(index))
            } else {
                (self, FrameAction::Nothing)
            },
            FrameEvent::AcquireOutOfDate => if self.phase == FramePhase::Acquiring {
                (FrameLoop { phase: FramePhase::Idle, ..self }, FrameAction::Nothing)
            } else {
                (self, FrameAction::Nothing)
            },
            FrameEvent::AcquireFailed => if self.phase == FramePhase::Acquiring {
                (FrameLoop { phase: FramePhase::Idle, ..self }, FrameAction::Abort)
            } else {
                (self, FrameAction::Nothing)
            },
            FrameEvent::Presented => if self.phase == FramePhase::Presenting {
                (FrameLoop { phase: FramePhase::Idle, ..self }, FrameAction::Nothing)
            } else {
                (self, FrameAction::Nothing)
            },
            FrameEvent::PresentFailed => if self.phase == FramePhase::Presenting {
                (FrameLoop { phase: FramePhase::Idle, ..self }, FrameAction::Abort)
            } else {
                (self, FrameAction::Nothing)
            },
        }
    }

    /// A loop with no frame under way and a swapchain that fits the window.
    pub fn new() -> (r: FrameLoop)
        ensures
            r.phase == FramePhase::Idle,
            !r.recreate_swapchain,
    {
        FrameLoop { phase: FramePhase::Idle, recreate_swapchain: false }
    }

    /// Next state and action for `event`.
    pub fn step(&self, event: FrameEvent) -> (r: (FrameLoop, FrameAction))
        ensures
            r == self.spec_step(event),
    {
        let s = *self;
        match event {
            FrameEvent::Window(WindowInput::CloseRequested) => (s, FrameAction::Exit),
            FrameEvent::Window(WindowInput::KeyPressed(Key::Escape)) => (s, FrameAction::Exit),
            FrameEvent::Window(WindowInput::Resized) => (
                FrameLoop { phase: s.phase, recreate_swapchain: true },
                FrameAction::Nothing,
            ),
            FrameEvent::Window(WindowInput::RedrawRequested) => match s.phase {
                FramePhase::Idle => if s.recreate_swapchain {
                    (
                        FrameLoop { phase: FramePhase::Recreating, recreate_swapchain: true },
                        FrameAction::RecreateSwapchain,
                    )
                } else {
                    (
                        FrameLoop { phase: FramePhase::Acquiring, recreate_swapchain: false },
                        FrameAction::AcquireImage,
                    )
                },
                _ => (s, FrameAction::Nothing),
            },
            FrameEvent::Window(_) => (s, FrameAction::Nothing),
            FrameEvent::SwapchainRecreated => match s.phase {
                FramePhase::Recreating => (
                    FrameLoop { phase: FramePhase::Acquiring, recreate_swapchain: false },
                    FrameAction::AcquireImage,
                ),
                _ => (s, FrameAction::Nothing),
            },
            FrameEvent::ImageAcquired(index) => match s.phase {
                FramePhase::Acquiring => (
                    FrameLoop { phase: FramePhase::Presenting, recreate_swapchain: s.recreate_swapchain },
                    FrameAction::DrawAndPresent(index),
                ),
                _ => (s, FrameAction::Nothing),
            },
            FrameEvent::AcquireOutOfDate => match s.phase {
                FramePhase::Acquiring => (
                    FrameLoop { phase: FramePhase::Idle, recreate_swapchain: s.recreate_swapchain },
                    FrameAction::Nothing,
                ),
                _ => (s, FrameAction::Nothing),
            },
            FrameEvent::AcquireFailed => match s.phase {
                FramePhase::Acquiring => (
                    FrameLoop { phase: FramePhase::Idle, recreate_swapchain: s.recreate_swapchain },
                    FrameAction::Abort,
                ),
                _ => (s, FrameAction::Nothing),
            },
            FrameEvent::Presented => match s.phase {
                FramePhase::Presenting => (
                    FrameLoop { phase: FramePhase::Idle, recreate_swapchain: s.recreate_swapchain },
                    FrameAction::Nothing,
                ),
                _ => (s, FrameAction::Nothing),
            },
            FrameEvent::PresentFailed => match s.phase {
                FramePhase::Presenting => (
                    FrameLoop { phase: FramePhase::Idle, recreate_swapchain: s.recreate_swapchain },
                    FrameAction::Abort,
                ),
                _ => (s, FrameAction::Nothing),
            },
        }
    }
}

/// An image is only ever acquired from a swapchain that fits the window: no
/// step asks for one while a rebuild is pending.
pub proof fn lemma_acquire_after_rebuild(s: FrameLoop, e: FrameEvent)
    ensures
        s.spec_step(e).1 == FrameAction::AcquireImage ==> !s.spec_step(e).0.recreate_swapchain,
{
}

/// After a resize, the next frame starts by rebuilding the swapchain, and
/// once rebuilt it goes on to acquire an image with the stale mark cleared.
pub proof fn lemma_resize_rebuilds(s: FrameLoop)
    requires
        s.phase == FramePhase::Idle,
    ensures
        ({
            let resized = s.spec_step(FrameEvent::Window(WindowInput::Resized)).0;
            let (rebuilding, first) = resized.spec_step(FrameEvent::Window(WindowInput::RedrawRequested));
            let (acquiring, second) = rebuilding.spec_step(FrameEvent::SwapchainRecreated);
            &&& first == FrameAction::RecreateSwapchain
            &&& second == FrameAction::AcquireImage
            &&& acquiring == FrameLoop { phase: FramePhase::Acquiring, recreate_swapchain: false }
        }),
{
}

/// A frame on a fitting swapchain acquires an image, draws into the
/// framebuffer of exactly that image, and ends back at rest.
pub proof fn lemma_frame_round_trip(s: FrameLoop, index: u32)
    requires
        s.phase == FramePhase::Idle,
        !s.recreate_swapchain,
    ensures
        ({
            let (a, first) = s.spec_step(FrameEvent::Window(WindowInput::RedrawRequested));
            let (b, second) = a.spec_step(FrameEvent::ImageAcquired(index));
            let (c, third) = b.spec_step(FrameEvent::Presented);
            &&& first == FrameAction::AcquireImage
            &&& second == FrameAction::DrawAndPresent(index)
            &&& third == FrameAction::Nothing
            &&& c == s
        }),
{
}

/// An out-of-date image skips the frame: the loop is at rest again, asks for
/// nothing, and keeps whatever it knew about the swapchain.
pub proof fn lemma_out_of_date_skips(s: FrameLoop)
    requires
        s.phase == FramePhase::Acquiring,
    ensures
        s.spec_step(FrameEvent::AcquireOutOfDate) == (
            FrameLoop { phase: FramePhase::Idle, recreate_swapchain: s.recreate_swapchain },
            FrameAction::Nothing,
        ),
{
}

/// The loop leaves exactly on a close request or an Escape key press, in any
/// state, and leaving changes nothing. Any other key press, and any other
/// window event than a resize or a redraw request, changes nothing and asks
/// for nothing.
pub proof fn lemma_exit_only_on_close_or_escape(s: FrameLoop, e: FrameEvent)
    ensures
        (s.spec_step(e).1 == FrameAction::Exit) <==> (e == FrameEvent::Window(
            WindowInput::CloseRequested,
        ) || e == FrameEvent::Window(WindowInput::KeyPressed(Key::Escape))),
        s.spec_step(e).1 == FrameAction::Exit ==> s.spec_step(e).0 == s,
        (e == FrameEvent::Window(WindowInput::Other) || e == FrameEvent::Window(
            WindowInput::KeyPressed(Key::KeyR),
        ) || e == FrameEvent::Window(WindowInput::KeyPressed(Key::Other))) ==> s.spec_step(e) == (
            s,
            FrameAction::Nothing,
        ),
{
}

/// Each action of the loop comes from one kind of event only: a rebuild
/// from a redraw request at rest with a stale swapchain; an acquisition from
/// a redraw request at rest with a fitting swapchain or from a finished
/// rebuild; drawing into image `i` only from acquiring image `i`; an abort
/// only from a failed acquisition or presentation. Only a resize marks the
/// swapchain stale and only a finished rebuild clears the mark.
pub proof fn lemma_actions_have_causes(s: FrameLoop, e: FrameEvent)
    ensures
        s.spec_step(e).1 == FrameAction::RecreateSwapchain ==> e == FrameEvent::Window(
            WindowInput::RedrawRequested,
        ) && s.phase == FramePhase::Idle && s.recreate_swapchain,
        s.spec_step(e).1 == FrameAction::AcquireImage ==> (e == FrameEvent::Window(
            WindowInput::RedrawRequested,
        ) && s.phase == FramePhase::Idle && !s.recreate_swapchain) || (e
            == FrameEvent::SwapchainRecreated && s.phase == FramePhase::Recreating),
        s.spec_step(e).1 matches FrameAction::DrawAndPresent(i) ==> e
            == FrameEvent::ImageAcquired(i) && s.phase == FramePhase::Acquiring,
        s.spec_step(e).1 == FrameAction::Abort ==> (e == FrameEvent::AcquireFailed && s.phase
            == FramePhase::Acquiring) || (e == FrameEvent::PresentFailed && s.phase
            == FramePhase::Presenting),
        s.spec_step(e).0.recreate_swapchain && !s.recreate_swapchain ==> e == FrameEvent::Window(
            WindowInput::Resized,
        ),
        !s.spec_step(e).0.recreate_swapchain && s.recreate_swapchain ==> e
            == FrameEvent::SwapchainRecreated,
        e == FrameEvent::Window(WindowInput::Resized) ==> s.spec_step(e) == (
            FrameLoop { phase: s.phase, recreate_swapchain: true },
            FrameAction::Nothing,
        ),
{
}

/// What to do with the outcome of acquiring a swapchain image in the cube
/// application, whose window renderer rebuilds itself on request.
#[derive(Clone, Copy, Debug, PartialEq, Eq, Structural)]
pub enum AcquireDecision {
    /// Draw into the acquired image.
    Proceed,
    /// Resize the window renderer and try again.
    ResizeAndRetry,
    /// Stop with an error.
    Abort,
}

/// The outcome of acquiring a swapchain image.
#[derive(Clone, Copy, Debug, PartialEq, Eq, Structural)]
pub enum AcquireOutcome {
    Acquired,
    OutOfDate,
    Failed,
}

/// The cube application keeps acquiring until it gets an image: an
/// out-of-date swapchain is resized and tried again, any other failure stops.
pub fn acquire_decision(outcome: AcquireOutcome) -> (r: AcquireDecision)
    ensures
        r == match outcome {
            AcquireOutcome::Acquired => AcquireDecision::Proceed,
            AcquireOutcome::OutOfDate => AcquireDecision::ResizeAndRetry,
            AcquireOutcome::Failed => AcquireDecision::Abort,
        },
{
    match outcome {
        AcquireOutcome::Acquired => AcquireDecision::Proceed,
        AcquireOutcome::OutOfDate => AcquireDecision::ResizeAndRetry,
        AcquireOutcome::Failed => AcquireDecision::Abort,
    }
}

/// Settings of a new swapchain.
#[derive(Clone, Copy, Debug)]
pub struct SwapchainChoice<F, A> {
    pub min_image_count: u32,
    pub image_format: F,
    pub composite_alpha: A,
}

/// Settings of the viewer's swapchain from what the surface offers: at
/// least two images (more when the surface asks for more), the first format
/// the surface lists and the first compositing mode it supports. `None` when
/// the surface lists no format or no compositing mode.
pub fn choose_swapchain<F: Copy, A: Copy>(
    surface_min_image_count: u32,
    formats: &[F],
    composite_alphas: &[A],
) -> (r: Option<SwapchainChoice<F, A>>)
    ensures
        r is Some <==> formats.len() > 0 && composite_alphas.len() > 0,
        r matches Some(c) ==> {
            &&& c.min_image_count == if surface_min_image_count < 2 {
                2
            } else {
                surface_min_image_count
            }
            &&& c.image_format == formats@[0]
            &&& c.composite_alpha == composite_alphas@[0]
        },
{
    if formats.len() == 0 || composite_alphas.len() == 0 {
        return None;
    }
    let min_image_count = if surface_min_image_count < 2 {
        2
    } else {
        surface_min_image_count
    };
    Some(SwapchainChoice { min_image_count, image_format: formats[0], composite_alpha: composite_alphas[0] })
}

} // verus!

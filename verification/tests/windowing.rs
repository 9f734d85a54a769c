use cube::device::{
    device_type_rank, first_usable_family, pick_physical_device_and_queue, DeviceCandidate,
    PhysicalDeviceType, QueueFamilyInfo,
};
use cube::frame::{acquire_decision, choose_swapchain, AcquireDecision, AcquireOutcome, FrameAction, FrameEvent, FrameLoop, FramePhase};
use cube::text_geometry::push_glyph_quad_indices;
use cube::window_events::{app_command, asks_renderer, AppCommand, Key, ProcCubeControls, WindowInput};

fn family(graphics: bool, presentation: bool) -> QueueFamilyInfo {
    QueueFamilyInfo { graphics, presentation }
}

fn device(ext: bool, t: PhysicalDeviceType, families: Vec<QueueFamilyInfo>) -> DeviceCandidate {
    DeviceCandidate { supports_extensions: ext, device_type: t, queue_families: families }
}

#[test]
fn ranks_follow_device_kind() {
    assert_eq!(device_type_rank(PhysicalDeviceType::DiscreteGpu), 0);
    assert_eq!(device_type_rank(PhysicalDeviceType::IntegratedGpu), 1);
    assert_eq!(device_type_rank(PhysicalDeviceType::VirtualGpu), 2);
    assert_eq!(device_type_rank(PhysicalDeviceType::Cpu), 3);
    assert_eq!(device_type_rank(PhysicalDeviceType::Other), 4);
    assert_eq!(device_type_rank(PhysicalDeviceType::Unknown), 5);
}

#[test]
fn first_family_that_draws_and_presents() {
    let fams = vec![family(true, false), family(false, true), family(true, true), family(true, true)];
    assert_eq!(first_usable_family(&fams), Some(2));
    assert_eq!(first_usable_family(&[family(true, false)]), None);
    assert_eq!(first_usable_family(&[]), None);
}

#[test]
fn discrete_gpu_preferred() {
    let cs = vec![
        device(true, PhysicalDeviceType::IntegratedGpu, vec![family(true, true)]),
        device(true, PhysicalDeviceType::DiscreteGpu, vec![family(false, true), family(true, true)]),
        device(true, PhysicalDeviceType::DiscreteGpu, vec![family(true, true)]),
    ];
    assert_eq!(pick_physical_device_and_queue(&cs), Some((1, 1)));
}

#[test]
fn unusable_devices_are_skipped() {
    let cs = vec![
        device(false, PhysicalDeviceType::DiscreteGpu, vec![family(true, true)]),
        device(true, PhysicalDeviceType::DiscreteGpu, vec![family(true, false)]),
        device(true, PhysicalDeviceType::Cpu, vec![family(false, false), family(true, true)]),
    ];
    assert_eq!(pick_physical_device_and_queue(&cs), Some((2, 1)));
}

#[test]
fn no_usable_device() {
    let cs = vec![device(false, PhysicalDeviceType::DiscreteGpu, vec![family(true, true)])];
    assert_eq!(pick_physical_device_and_queue(&cs), None);
    assert_eq!(pick_physical_device_and_queue(&[]), None);
}

#[test]
fn cube_app_routes_events() {
    assert!(!asks_renderer(WindowInput::CloseRequested, false));
    assert!(!asks_renderer(WindowInput::RedrawRequested, false));
    assert!(asks_renderer(WindowInput::KeyPressed(Key::KeyR), false));
    assert!(!asks_renderer(WindowInput::KeyPressed(Key::KeyR), true));
    assert_eq!(app_command(WindowInput::CloseRequested, false), AppCommand::Exit);
    assert_eq!(app_command(WindowInput::RedrawRequested, false), AppCommand::Redraw);
    assert_eq!(app_command(WindowInput::KeyPressed(Key::Escape), false), AppCommand::Exit);
    assert_eq!(app_command(WindowInput::KeyPressed(Key::Escape), true), AppCommand::Ignore);
    assert_eq!(app_command(WindowInput::KeyPressed(Key::KeyR), false), AppCommand::Ignore);
    assert_eq!(app_command(WindowInput::Resized, false), AppCommand::Ignore);
}

#[test]
fn r_toggles_auto_rotation() {
    let mut c = ProcCubeControls::new();
    assert!(!c.auto_rotate);
    assert!(c.handle_window_event(WindowInput::KeyPressed(Key::KeyR)));
    assert!(c.auto_rotate);
    assert!(!c.handle_window_event(WindowInput::KeyPressed(Key::Escape)));
    assert!(c.auto_rotate);
    assert!(c.handle_window_event(WindowInput::KeyPressed(Key::KeyR)));
    assert!(!c.auto_rotate);
}

#[test]
fn frame_round_trip() {
    let s = FrameLoop::new();
    let (a, act) = s.step(FrameEvent::Window(WindowInput::RedrawRequested));
    assert_eq!(act, FrameAction::AcquireImage);
    assert_eq!(a.phase, FramePhase::Acquiring);
    let (b, act) = a.step(FrameEvent::ImageAcquired(2));
    assert_eq!(act, FrameAction::DrawAndPresent(2));
    let (c, act) = b.step(FrameEvent::Presented);
    assert_eq!(act, FrameAction::Nothing);
    assert_eq!(c, s);
}

#[test]
fn resize_rebuilds_before_next_frame() {
    let s = FrameLoop::new();
    let (a, act) = s.step(FrameEvent::Window(WindowInput::Resized));
    assert_eq!(act, FrameAction::Nothing);
    assert!(a.recreate_swapchain);
    let (b, act) = a.step(FrameEvent::Window(WindowInput::RedrawRequested));
    assert_eq!(act, FrameAction::RecreateSwapchain);
    let (c, act) = b.step(FrameEvent::SwapchainRecreated);
    assert_eq!(act, FrameAction::AcquireImage);
    assert!(!c.recreate_swapchain);
    let (d, act) = c.step(FrameEvent::AcquireOutOfDate);
    assert_eq!(act, FrameAction::Nothing);
    assert_eq!(d, FrameLoop::new());
}

#[test]
fn failures_abort_and_exit_requests_leave() {
    let s = FrameLoop::new();
    let (a, _) = s.step(FrameEvent::Window(WindowInput::RedrawRequested));
    assert_eq!(a.step(FrameEvent::AcquireFailed).1, FrameAction::Abort);
    let (b, _) = a.step(FrameEvent::ImageAcquired(0));
    assert_eq!(b.step(FrameEvent::PresentFailed).1, FrameAction::Abort);
    assert_eq!(s.step(FrameEvent::Window(WindowInput::CloseRequested)).1, FrameAction::Exit);
    assert_eq!(s.step(FrameEvent::Window(WindowInput::KeyPressed(Key::Escape))).1, FrameAction::Exit);
    assert_eq!(s.step(FrameEvent::Window(WindowInput::KeyPressed(Key::KeyR))).1, FrameAction::Nothing);
    assert_eq!(s.step(FrameEvent::Presented), (s, FrameAction::Nothing));
}

#[test]
fn cube_acquire_retries_out_of_date() {
    assert_eq!(acquire_decision(AcquireOutcome::Acquired), AcquireDecision::Proceed);
    assert_eq!(acquire_decision(AcquireOutcome::OutOfDate), AcquireDecision::ResizeAndRetry);
    assert_eq!(acquire_decision(AcquireOutcome::Failed), AcquireDecision::Abort);
}

#[test]
fn swapchain_settings() {
    let c = choose_swapchain(1, &["srgb", "unorm"], &[4u8, 1]).unwrap();
    assert_eq!(c.min_image_count, 2);
    assert_eq!(c.image_format, "srgb");
    assert_eq!(c.composite_alpha, 4);
    let c = choose_swapchain(3, &[7u32], &['o']).unwrap();
    assert_eq!(c.min_image_count, 3);
    assert!(choose_swapchain::<u32, u8>(2, &[], &[1]).is_none());
    assert!(choose_swapchain::<u32, u8>(2, &[1], &[]).is_none());
}

#[test]
fn quad_indices_two_triangles() {
    let mut idx = Vec::new();
    push_glyph_quad_indices(&mut idx, 0);
    push_glyph_quad_indices(&mut idx, 4);
    assert_eq!(idx, vec![0, 1, 2, 2, 3, 0, 4, 5, 6, 6, 7, 4]);
    let mut wrapped = Vec::new();
    push_glyph_quad_indices(&mut wrapped, 65536 + 8);
    assert_eq!(wrapped, vec![8, 9, 10, 10, 11, 8]);
    let mut top = Vec::new();
    push_glyph_quad_indices(&mut top, 65532);
    assert_eq!(top, vec![65532, 65533, 65534, 65534, 65535, 65532]);
}

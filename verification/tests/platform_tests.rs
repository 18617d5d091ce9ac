use url_album::compat::{failure_hook, shim_lookup, wait_deadline, wait_step, HookAnswer, Shim, WaitStep};
use url_album::winmsg::{frame_sleep_ms, message_action, rgb_to_bgr, vk_to_key, Key, WinAction};

#[test]
fn named_keys() {
    assert_eq!(vk_to_key(0x25), Some(Key::LeftArrow));
    assert_eq!(vk_to_key(0x0D), Some(Key::Return));
    assert_eq!(vk_to_key(0x70), Some(Key::F(1)));
    assert_eq!(vk_to_key(0x7B), Some(Key::F(12)));
    assert_eq!(vk_to_key(0x41), None);
    assert_eq!(vk_to_key(0x1_0025), Some(Key::LeftArrow));
}

#[test]
fn messages() {
    assert!(matches!(message_action(0x0014, 0, 0), WinAction::SkipErase));
    assert!(matches!(message_action(0x0005, 0, (480 << 16) | 640), WinAction::Resize(640, 480)));
    assert!(matches!(message_action(0x0005, 1, (480 << 16) | 640), WinAction::Default));
    assert!(matches!(message_action(0x0005, 0, 640), WinAction::Ignore));
    assert!(matches!(message_action(0x0200, 0, (20 << 16) | 0xFFFF), WinAction::PointerMoved(-1, 20)));
    assert!(matches!(message_action(0x0203, 0, (2 << 16) | 3), WinAction::Pressed { left: true, x: 3, y: 2 }));
    assert!(matches!(message_action(0x0205, 0, 0), WinAction::Released { left: false, x: 0, y: 0 }));
    assert!(matches!(message_action(0x020A, 0xFF88_0000, 0), WinAction::Wheel { delta: -120, .. }));
    assert!(matches!(message_action(0x0100, 0x27, 0), WinAction::KeyDown(Key::RightArrow)));
    assert!(matches!(message_action(0x0105, 0x41, 0), WinAction::Default));
    assert!(matches!(message_action(0x0102, 'ж' as usize, 0), WinAction::Typed('ж')));
    assert!(matches!(message_action(0x0102, 8, 0), WinAction::Ignore));
    assert!(matches!(message_action(0x0102, 127, 0), WinAction::Ignore));
    assert!(matches!(message_action(0x0102, 0xD800, 0), WinAction::Ignore));
    assert!(matches!(message_action(0x0007, 0, 0), WinAction::Focus(true)));
    assert!(matches!(message_action(0x0010, 0, 0), WinAction::Quit));
    assert!(matches!(message_action(0x0001, 0, 0), WinAction::Default));
}

#[test]
fn frames() {
    assert_eq!(rgb_to_bgr(&vec![(1, 2, 3), (4, 5, 6)]), vec![3, 2, 1, 6, 5, 4]);
    assert_eq!(frame_sleep_ms(None), 16);
    assert_eq!(frame_sleep_ms(Some(5)), 5);
    assert_eq!(frame_sleep_ms(Some(1000)), 16);
}

#[test]
fn stand_ins() {
    assert_eq!(shim_lookup(b"BCRYPTPRIMITIVES.DLL", false, 1, b""), Some(Shim::ProcessPrng));
    assert_eq!(shim_lookup(b"bcryptprimitives.dll", true, 0, b"ProcessPrng"), Some(Shim::ProcessPrng));
    assert_eq!(shim_lookup(b"bcryptprimitives.dll", false, 2, b""), None);
    assert_eq!(shim_lookup(b"C:\\x\\api-ms-win-core-synch-l1-2-0.dll", true, 0, b"WakeByAddressSingle"), Some(Shim::WakeByAddressSingle));
    assert_eq!(shim_lookup(b"combase.dll", true, 0, b"CoTaskMemFree"), Some(Shim::CoTaskMemFree));
    assert_eq!(shim_lookup(b"combase.dll", false, 0, b"CoTaskMemFree"), None);
    assert_eq!(
        shim_lookup(b"api-ms-win-crt-runtime-l1-1-0.dll", true, 0, b"_get_initial_wide_environment"),
        Some(Shim::GetInitialWideEnvironment)
    );
    assert_eq!(shim_lookup(b"kernel32.dll", true, 0, b"Sleep"), None);
    assert!(matches!(failure_hook(3, b"x.dll", true, 0, b""), HookAnswer::FakeModule));
    assert!(matches!(failure_hook(4, b"combase.dll", true, 0, b"CoCreateFreeThreadedMarshaler"), HookAnswer::Function(Some(Shim::CoCreateFreeThreadedMarshaler))));
    assert!(matches!(failure_hook(1, b"combase.dll", true, 0, b"CoTaskMemFree"), HookAnswer::Nothing));
}

#[test]
fn waiting_on_an_address() {
    assert_eq!(wait_deadline(100, 50), 150);
    assert_eq!(wait_deadline(u32::MAX, 10), u32::MAX as u64 + 10);
    assert_eq!(wait_deadline(5, u32::MAX), u64::MAX);
    assert!(matches!(wait_step(3, false, 0, 10), WaitStep::Woken));
    assert!(matches!(wait_step(4, true, 0, 10), WaitStep::Woken));
    assert!(matches!(wait_step(4, false, 10, 10), WaitStep::TimedOut));
    assert!(matches!(wait_step(8, false, 9, 10), WaitStep::Sleep));
}

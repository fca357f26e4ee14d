use script_follow::session::{device_choice, DeviceChoice, SessionError, SessionGate};

#[test]
fn second_start_is_refused() {
    let mut g = SessionGate::new();
    assert_eq!(g.try_start(), Ok(()));
    assert_eq!(g.try_start(), Err(SessionError::AlreadyRunning));
    assert!(g.active);
    assert_eq!(SessionError::AlreadyRunning.message(), "Audio stream already running");
}

#[test]
fn stop_while_idle_is_refused() {
    let mut g = SessionGate::new();
    assert_eq!(g.try_stop(), Err(SessionError::NotRunning));
    assert!(!g.active);
    assert_eq!(g.try_start(), Ok(()));
    assert_eq!(g.try_stop(), Ok(()));
    assert!(!g.active);
    assert_eq!(SessionError::NotRunning.message(), "Audio stream not running");
}

#[test]
fn device_selectors_are_read() {
    assert!(matches!(device_choice("loopback"), DeviceChoice::Loopback));
    assert!(matches!(device_choice("default"), DeviceChoice::DefaultInput));
    match device_choice("USB Mic") {
        DeviceChoice::Named(n) => assert_eq!(n, "USB Mic"),
        _ => panic!("a named device"),
    }
    assert!(matches!(device_choice("Default"), DeviceChoice::Named(_)));
}

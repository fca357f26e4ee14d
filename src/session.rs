use vstd::prelude::*;

verus! {

/// Why a start or stop request was refused.
#[derive(Clone, Copy, Debug, PartialEq, Eq, Structural)]
pub enum SessionError {
    AlreadyRunning,
    NotRunning,
}

impl SessionError {
    /// The message shown to the caller.
    pub fn message(&self) -> (r: &'static str) {
        match self {
            SessionError::AlreadyRunning => "Audio stream already running",
            SessionError::NotRunning => "Audio stream not running",
        }
    }
}

/// Which device a session captures from.
#[derive(Clone, Debug)]
pub enum DeviceChoice {
    /// What the default output device plays.
    Loopback,
    /// The default input device.
    DefaultInput,
    /// The input device of this name.
    Named(String),
}

/// Reads a device selector: `"loopback"`, `"default"`, or a device name.
pub fn device_choice(id: &str) -> (r: DeviceChoice)
    ensures
        id@ == "loopback"@ <==> r is Loopback,
        id@ == "default"@ <==> r is DefaultInput,
        r matches DeviceChoice::Named(n) ==> n@ == id@,
{
    let owned = id.to_owned();
    proof {
        reveal_strlit("loopback");
        reveal_strlit("default");
        assert("loopback"@[0] != "default"@[0]);
    }
    if owned == "loopback".to_owned() {
        DeviceChoice::Loopback
    } else if owned == "default".to_owned() {
        DeviceChoice::DefaultInput
    } else {
        DeviceChoice::Named(owned)
    }
}

/// Whether a capture session runs: a second start while one runs, or a
/// stop while none does, is refused and changes nothing.
#[derive(Clone, Copy, Debug, PartialEq, Eq, Structural)]
pub struct SessionGate {
    pub active: bool,
}

impl SessionGate {
    pub fn new() -> (r: Self)
        ensures
            !r.active,
    {
        SessionGate { active: false }
    }

    pub fn try_start(&mut self) -> (r: Result<(), SessionError>)
        ensures
            old(self).active ==> r == Err::<(), SessionError>(SessionError::AlreadyRunning)
                && *final(self) == *old(self),
            !old(self).active ==> r is Ok && final(self).active,
    {
        if self.active {
            return Err(SessionError::AlreadyRunning);
        }
        self.active = true;
        Ok(())
    }

    pub fn try_stop(&mut self) -> (r: Result<(), SessionError>)
        ensures
            !old(self).active ==> r == Err::<(), SessionError>(SessionError::NotRunning)
                && *final(self) == *old(self),
            old(self).active ==> r is Ok && !final(self).active,
    {
        if !self.active {
            return Err(SessionError::NotRunning);
        }
        self.active = false;
        Ok(())
    }
}

} // verus!

//! What the udev listener makes of a wake-up.

use vstd::prelude::*;

verus! {

/// Which netlink group to listen on.
///
/// Userspace (`udev`) is what systemd-udevd broadcasts after it has processed an event.
/// Kernel is the raw `kobject` uevent, which still arrives in a Flatpak that can see the
/// host network namespace even when the udev database under `/run/udev` is missing.
#[derive(Clone, Copy, Debug, PartialEq, Eq, Structural)]
pub enum UdevSource {
    Userspace,
    Kernel,
}

impl UdevSource {
    pub open spec fn name_text(self) -> Seq<char> {
        match self {
            UdevSource::Userspace => "Userspace"@,
            UdevSource::Kernel => "Kernel"@,
        }
    }

    pub fn name(self) -> (r: &'static str)
        ensures
            r@ == self.name_text(),
    {
        match self {
            UdevSource::Userspace => "Userspace",
            UdevSource::Kernel => "Kernel",
        }
    }
}

/// How waiting for an event ended.
#[derive(Clone, Copy, Debug, PartialEq, Eq, Structural)]
pub enum Wake {
    /// An event came, or the time for a resync.
    Woken,
    /// A signal came.
    Interrupted,
    /// The wait failed.
    Failed,
}

/// What to do after a wait, before any event is read.
#[derive(Clone, Copy, Debug, PartialEq, Eq, Structural)]
pub enum AfterWait {
    Read,
    WaitAgain,
    BackOffThenRead,
}

/// What to do after a wait.
pub fn after_wait(wake: Wake) -> (r: AfterWait)
    ensures
        r == (match wake {
            Wake::Woken => AfterWait::Read,
            Wake::Interrupted => AfterWait::WaitAgain,
            Wake::Failed => AfterWait::BackOffThenRead,
        }),
{
    match wake {
        Wake::Woken => AfterWait::Read,
        Wake::Interrupted => AfterWait::WaitAgain,
        Wake::Failed => AfterWait::BackOffThenRead,
    }
}

/// Whether a wake-up is passed on. `matched` events of the subsystem were read, and
/// `readable` says whether there was anything to read.
///
/// A wake with nothing matching is some other subsystem's uevent leaking through; acting on
/// it would mean re-applying on every backlight tick. A wake with nothing to read is the
/// periodic resync: a suspend/resume cycle can swallow netlink messages, and silently acting
/// on a stale reading forever is worse than one extra check.
pub fn is_news(matched: usize, readable: bool) -> (r: bool)
    ensures
        r == (matched > 0 || !readable),
{
    !(matched == 0 && readable)
}

} // verus!

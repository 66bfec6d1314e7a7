//! What the daemon wakes up for. Times and durations are nanoseconds.

use vstd::prelude::*;

use crate::config::PowerState;

verus! {

/// Nanoseconds in a millisecond.
pub const MILLISECOND: u64 = 1_000_000;

/// Nanoseconds in a second.
pub const SECOND: u64 = 1_000_000_000;

/// How often displays are looked at even if no change was reported.
pub const DRM_RESYNC_INTERVAL: u64 = 300_000_000_000;

#[derive(Clone, Copy, Debug, PartialEq, Eq, Structural)]
pub enum Event {
    /// The adapter was plugged in or unplugged.
    Power(PowerState),
    /// A monitor was connected, disconnected, or otherwise re-probed.
    DisplaysChanged,
    /// The config file on disk changed, most likely because the window saved it.
    ConfigChanged,
    /// The machine came back from suspend, where the desktop often restores its own
    /// display configuration behind our back.
    Resumed,
}

impl Event {
    pub open spec fn delay(self) -> u64 {
        match self {
            Event::Power(_) => 1_500_000_000,
            Event::DisplaysChanged => 2_000_000_000,
            Event::ConfigChanged => 300_000_000,
            Event::Resumed => 2_500_000_000,
        }
    }

    /// How long to wait for the dust to settle before acting.
    ///
    /// Chargers and docks bounce: plugging a laptop into a Thunderbolt dock produces a
    /// burst of power and display events over a second or two, and reacting to each one
    /// would mean several mode switches in a row.
    pub fn settle_delay(self) -> (r: u64)
        ensures
            r == self.delay(),
    {
        match self {
            Event::Power(_) => 1500 * MILLISECOND,
            Event::DisplaysChanged => 2000 * MILLISECOND,
            Event::ConfigChanged => 300 * MILLISECOND,
            Event::Resumed => 2500 * MILLISECOND,
        }
    }
}

/// The event that logind's `PrepareForSleep` signal stands for: only the end of a sleep
/// counts.
pub fn sleep_signal(going_to_sleep: bool) -> (r: Option<Event>)
    ensures
        r == (if going_to_sleep {
            None
        } else {
            Some(Event::Resumed)
        }),
{
    if going_to_sleep {
        None
    } else {
        Some(Event::Resumed)
    }
}

/// A change of the settings is acted on sooner than one of the charger, and that sooner
/// than a hotplug.
pub proof fn law_charger_settles_faster_than_hotplug(state: PowerState)
    ensures
        Event::ConfigChanged.delay() < Event::Power(state).delay() < Event::DisplaysChanged.delay(),
{
}

} // verus!

//! Single-instance lock for `powerdisplayd`, plus the host's autostart entry.
//!
//! The lock lives under the Flatpak app runtime dir so every instance of this app sees
//! the same file.
//!
//! GNOME Software does not reliably kill a `flatpak run --command=powerdisplayd` instance
//! or delete the portal autostart entry. The daemon therefore watches whether this app
//! is still installed, and the autostart Exec is a wrapper that no-ops if it is not.

use vstd::prelude::*;

use crate::paths::{ascii, ascii_bytes, copy_bytes, join_path, joined_path, PathError};

verus! {

pub const FLATPAK_ID: &'static str = "io.github.Emanuel4100.PowerDisplay";

/// The file that only a Flatpak sandbox has.
pub const FLATPAK_MARKER: &'static str = "/.flatpak-info";

/// How long to keep trying for the lock before concluding another daemon really owns it, in
/// nanoseconds.
///
/// Asking whether the lock is held takes a shared lock for an instant, and a daemon that
/// gave up the first time it lost that race would leave the machine with no daemon at all.
pub const ACQUIRE_TIMEOUT: u64 = 2_000_000_000;

pub const ACQUIRE_INTERVAL: u64 = 50_000_000;

/// The directory that holds the locks.
pub open spec fn lock_directory(runtime: Option<Seq<u8>>, sandboxed: bool) -> Seq<u8> {
    let base = match runtime {
        Some(dir) => dir,
        None => ascii("/tmp"@),
    };
    if sandboxed {
        joined_path(joined_path(base, ascii("app"@)), ascii(FLATPAK_ID@))
    } else {
        base
    }
}

fn lock_dir(runtime: &Option<Vec<u8>>, sandboxed: bool) -> (r: Vec<u8>)
    ensures
        r@ == lock_directory(
            match runtime {
                Some(dir) => Some(dir@),
                None => None,
            },
            sandboxed,
        ),
{
    let base = match runtime {
        Some(dir) => copy_bytes(dir),
        None => ascii_bytes("/tmp"),
    };
    if sandboxed {
        let app = join_path(&base, "app");
        join_path(&app, FLATPAK_ID)
    } else {
        base
    }
}

/// The lock that the one daemon holds. `runtime` is `XDG_RUNTIME_DIR`.
pub fn lock_path(runtime: &Option<Vec<u8>>, sandboxed: bool) -> (r: Vec<u8>)
    ensures
        r@ == joined_path(
            lock_directory(
                match runtime {
                    Some(dir) => Some(dir@),
                    None => None,
                },
                sandboxed,
            ),
            ascii("powerdisplayd.lock"@),
        ),
{
    let dir = lock_dir(runtime, sandboxed);
    join_path(&dir, "powerdisplayd.lock")
}

/// The lock that is held for the duration of an apply, so the daemon and a manual
/// `--apply-now` cannot drive the compositor at the same time.
pub fn apply_guard_path(runtime: &Option<Vec<u8>>, sandboxed: bool) -> (r: Vec<u8>)
    ensures
        r@ == joined_path(
            lock_directory(
                match runtime {
                    Some(dir) => Some(dir@),
                    None => None,
                },
                sandboxed,
            ),
            ascii("powerdisplayd.apply"@),
        ),
{
    let dir = lock_dir(runtime, sandboxed);
    join_path(&dir, "powerdisplayd.apply")
}

/// The two locks are never the same file.
pub proof fn law_apply_guard_is_another_lock(dir: Seq<u8>)
    ensures
        joined_path(dir, ascii("powerdisplayd.lock"@)) != joined_path(
            dir,
            ascii("powerdisplayd.apply"@),
        ),
{
    reveal_strlit("powerdisplayd.lock");
    reveal_strlit("powerdisplayd.apply");
    let a = joined_path(dir, ascii("powerdisplayd.lock"@));
    let b = joined_path(dir, ascii("powerdisplayd.apply"@));
    assert(a.len() != b.len());
}

/// How an attempt to take the lock ended.
#[derive(Clone, Copy, Debug, PartialEq, Eq, Structural)]
pub enum LockAttempt {
    Taken,
    WouldBlock,
    Failed,
}

/// What follows from an attempt to take the lock.
#[derive(Clone, Copy, Debug, PartialEq, Eq, Structural)]
pub enum AcquireStep {
    /// We are the daemon.
    Acquired,
    /// Wait for this many nanoseconds and try again.
    Retry(u64),
    /// Another daemon is up.
    GiveUp,
    /// The lock cannot be used at all.
    Fail,
}

/// What follows from an attempt that ended at `now`.
pub open spec fn acquire_step(attempt: LockAttempt, now: u64, deadline: u64) -> AcquireStep {
    match attempt {
        LockAttempt::Taken => AcquireStep::Acquired,
        LockAttempt::Failed => AcquireStep::Fail,
        LockAttempt::WouldBlock => if now < deadline {
            AcquireStep::Retry(ACQUIRE_INTERVAL)
        } else {
            AcquireStep::GiveUp
        },
    }
}

/// Decides what follows from an attempt to take the lock.
pub fn try_acquire(attempt: LockAttempt, now: u64, deadline: u64) -> (r: AcquireStep)
    ensures
        r == acquire_step(attempt, now, deadline),
{
    match attempt {
        LockAttempt::Taken => AcquireStep::Acquired,
        LockAttempt::Failed => AcquireStep::Fail,
        LockAttempt::WouldBlock => if now < deadline {
            AcquireStep::Retry(ACQUIRE_INTERVAL)
        } else {
            AcquireStep::GiveUp
        },
    }
}

/// True when a daemon currently holds the lock. `probe` is how taking a *shared* lock ended;
/// `None` where there is no lock file.
///
/// A shared lock still fails against the daemon's exclusive one, but two windows asking at
/// the same time do not block each other, and the moment it is held for cannot make a
/// starting daemon think it lost.
pub fn is_held(probe: Option<LockAttempt>) -> (r: bool)
    ensures
        r == (probe == Some(LockAttempt::WouldBlock)),
{
    match probe {
        Some(LockAttempt::WouldBlock) => true,
        _ => false,
    }
}

/// What to do while waiting for the lock to become free.
#[derive(Clone, Copy, Debug, PartialEq, Eq, Structural)]
pub enum WaitStep {
    Free,
    StillHeld,
    /// Wait for this many nanoseconds and look again.
    Sleep(u64),
}

/// Waits until no daemon holds the lock, or until the deadline.
///
/// `pkill` returns as soon as the signal is queued, so the process it killed may still be
/// holding the lock; starting a replacement before then makes the replacement exit.
pub fn wait_until_free(held: bool, now: u64, deadline: u64) -> (r: WaitStep)
    ensures
        r == (if !held {
            WaitStep::Free
        } else if now >= deadline {
            WaitStep::StillHeld
        } else {
            WaitStep::Sleep(ACQUIRE_INTERVAL)
        }),
{
    if !held {
        WaitStep::Free
    } else if now >= deadline {
        WaitStep::StillHeld
    } else {
        WaitStep::Sleep(ACQUIRE_INTERVAL)
    }
}

/// Losing a race for the lock never turns a daemon away before its time is up, and only a
/// lock that is held ever does.
pub proof fn law_a_lost_race_is_tried_again(attempt: LockAttempt, now: u64, deadline: u64)
    ensures
        now < deadline ==> acquire_step(attempt, now, deadline) != AcquireStep::GiveUp,
        acquire_step(attempt, now, deadline) == AcquireStep::GiveUp ==> attempt
            == LockAttempt::WouldBlock,
{
}

/// The host's autostart entry, below the home directory. `XDG_CONFIG_HOME` is the Flatpak
/// overlay in the sandbox and must not be used here.
pub fn host_autostart_path(home: &Option<Vec<u8>>) -> (r: Result<Vec<u8>, PathError>)
    ensures
        match (r, home) {
            (Ok(path), Some(h)) => path@ == joined_path(
                joined_path(h@, ascii(".config/autostart"@)),
                ascii(FLATPAK_ID@ + ".desktop"@),
            ),
            (Err(e), None) => e == PathError::NoHome,
            _ => false,
        },
{
    match home {
        Some(h) => {
            let dir = join_path(h, ".config/autostart");
            let mut name = FLATPAK_ID.to_string();
            name.append(".desktop");
            Ok(join_path(&dir, name.as_str()))
        },
        None => Err(PathError::NoHome),
    }
}

/// The autostart entry.
pub open spec fn autostart_entry() -> Seq<char> {
    "[Desktop Entry]\nType=Application\nName=Power Display\nComment=Switch display mode when the charger is plugged in or out\nX-GNOME-Autostart-enabled=true\nX-Flatpak="@
        + FLATPAK_ID@ + "\nX-XDP-Autostart="@ + FLATPAK_ID@
        + "\nExec=/bin/sh -c \"flatpak info "@ + FLATPAK_ID@
        + " >/dev/null 2>&1 && exec flatpak run --command=powerdisplayd "@ + FLATPAK_ID@
        + "\"\n"@
}

/// Autostart file that starts the daemon at login, but does nothing if Software has
/// already uninstalled the app (so the session does not show a failed-start dialog).
pub fn autostart_desktop_contents() -> (r: String)
    ensures
        r@ == autostart_entry(),
{
    let mut text =
        "[Desktop Entry]\nType=Application\nName=Power Display\nComment=Switch display mode when the charger is plugged in or out\nX-GNOME-Autostart-enabled=true\nX-Flatpak=".to_string();
    text.append(FLATPAK_ID);
    text.append("\nX-XDP-Autostart=");
    text.append(FLATPAK_ID);
    text.append("\nExec=/bin/sh -c \"flatpak info ");
    text.append(FLATPAK_ID);
    text.append(" >/dev/null 2>&1 && exec flatpak run --command=powerdisplayd ");
    text.append(FLATPAK_ID);
    text.append("\"\n");
    text
}

/// The command that asks the host whether the app is still installed.
pub fn installed_query() -> (r: Vec<String>)
    ensures
        r.deep_view() == seq!["flatpak-spawn"@, "--host"@, "flatpak"@, "info"@, FLATPAK_ID@],
{
    let mut command: Vec<String> = Vec::new();
    command.push("flatpak-spawn".to_string());
    command.push("--host".to_string());
    command.push("flatpak".to_string());
    command.push("info".to_string());
    command.push(FLATPAK_ID.to_string());
    assert(command.deep_view() =~= seq![
        "flatpak-spawn"@,
        "--host"@,
        "flatpak"@,
        "info"@,
        FLATPAK_ID@,
    ]);
    command
}

/// Whether the app is still installed. `answer` is what the host says, where it could be
/// asked.
///
/// Outside a sandbox there is no app-store copy to disappear from under us.
pub fn app_still_installed(sandboxed: bool, answer: Option<bool>) -> (r: bool)
    ensures
        r == (!sandboxed || answer != Some(false)),
{
    if !sandboxed {
        return true;
    }
    match answer {
        Some(installed) => installed,
        None => true,
    }
}

/// A lock that is taken makes us the daemon, and one that fails outright ends it. A lock that
/// is held is tried again every twentieth of a second, until the time is up.
pub proof fn law_the_lock_is_tried_until_the_time_is_up(now: u64, deadline: u64)
    ensures
        acquire_step(LockAttempt::Taken, now, deadline) == AcquireStep::Acquired,
        acquire_step(LockAttempt::Failed, now, deadline) == AcquireStep::Fail,
        now < deadline ==> acquire_step(LockAttempt::WouldBlock, now, deadline)
            == AcquireStep::Retry(50_000_000),
        now >= deadline ==> acquire_step(LockAttempt::WouldBlock, now, deadline)
            == AcquireStep::GiveUp,
{
}

/// The locks lie in the runtime directory, or among the temporary files where there is none.
/// A sandboxed app has a directory of its own below it.
pub proof fn law_where_the_locks_lie(dir: Seq<u8>, sandboxed: bool)
    ensures
        lock_directory(Some(dir), false) == dir,
        lock_directory(None, sandboxed) == lock_directory(Some(ascii("/tmp"@)), sandboxed),
        lock_directory(Some(dir), true) == joined_path(
            joined_path(lock_directory(Some(dir), false), ascii("app"@)),
            ascii(FLATPAK_ID@),
        ),
{
}


} // verus!

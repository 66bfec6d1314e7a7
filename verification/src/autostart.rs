//! Enabling and disabling the background service.
//!
//! powerdisplay ships as a Flatpak, and nothing inside a sandbox may write a systemd unit
//! onto the host. The autostart entry is therefore delegated to the desktop portal: the
//! checkbox asks it to start `powerdisplayd` at login, and to drop that entry again when
//! the box is unticked.
//!
//! Outside a sandbox the toggle is hidden. There is no unit to enable, and asking the
//! portal to autostart a host binary named `powerdisplayd` would be a lie after the native
//! install has been removed.

use vstd::prelude::*;

use crate::config::{config_dir, config_directory};
use crate::instance::FLATPAK_ID;
use crate::number::{decimal, to_decimal};
use crate::paths::{ascii, base_dir, base_directory, join_path, joined_path, PathError};
use crate::text::chars_of;

verus! {

/// How long to wait for the portal to answer, in nanoseconds. The request is not expected to
/// prompt, but the portal is free to ask the user, and a hung window is worse than a slow
/// one.
pub const PORTAL_TIMEOUT: u64 = 60_000_000_000;

/// How long to wait between stopping the daemon and starting it, in nanoseconds.
pub const RESTART_PAUSE: u64 = 300_000_000;

/// What follows once the portal has been asked.
#[derive(Clone, Copy, Debug, PartialEq, Eq, Structural)]
pub enum ServiceStep {
    /// Note that autostart is on, write the entry, and start the daemon afresh.
    EnableAndRestart,
    /// Drop the note and the entry, and stop the daemon.
    DisableAndStop,
}

/// Decides whether the portal is to be asked at all.
pub fn may_set_enabled(available: bool) -> (r: Result<(), String>)
    ensures
        match r {
            Ok(_) => available,
            Err(e) => !available && e@ == "no way to start the background service on this system"@,
        },
{
    if available {
        Ok(())
    } else {
        Err("no way to start the background service on this system".to_string())
    }
}

/// Decides what follows from the portal's answer. To switch off, it need not agree.
pub fn set_enabled(enabled: bool, granted: bool) -> (r: Result<ServiceStep, String>)
    ensures
        match r {
            Ok(step) => if enabled {
                granted && step == ServiceStep::EnableAndRestart
            } else {
                step == ServiceStep::DisableAndStop
            },
            Err(e) => enabled && !granted && e@
                == "the desktop refused permission to run in the background"@,
        },
{
    if enabled && !granted {
        Err("the desktop refused permission to run in the background".to_string())
    } else if enabled {
        Ok(ServiceStep::EnableAndRestart)
    } else {
        Ok(ServiceStep::DisableAndStop)
    }
}

/// Whether opening the window replaces the daemon. After a Flatpak reinstall the previous
/// one often keeps running with the old files.
pub fn wants_fresh_daemon(available: bool, enabled: bool) -> (r: bool)
    ensures
        r == (available && enabled),
{
    available && enabled
}

/// What the portal's answer says: whether autostart is on afterwards. Zero is success; one
/// is the user cancelling and two is anything else going wrong. Neither of the latter is an
/// error worth raising: the setting simply stays off.
pub fn portal_answer(response: u32, autostart: Option<bool>) -> (r: bool)
    ensures
        r == (response == 0 && autostart == Some(true)),
{
    if response != 0 {
        return false;
    }
    match autostart {
        Some(on) => on,
        None => false,
    }
}

/// Whether `pkill` did its work: it stopped the daemon, or there was none to stop.
/// `status` is how it ended in words.
pub fn stop(success: bool, code: Option<i32>, status: &str) -> (r: Result<(), String>)
    ensures
        match r {
            Ok(_) => success || code == Some(1i32),
            Err(e) => !success && code != Some(1i32) && e@ == "pkill exited with "@ + status@,
        },
{
    let nothing_to_stop = match code {
        Some(n) => n == 1,
        None => false,
    };
    if success || nothing_to_stop {
        return Ok(());
    }
    let mut text = "pkill exited with ".to_string();
    text.append(status);
    Err(text)
}

/// A command that runs on the host.
pub open spec fn on_host(sandboxed: bool, command: Seq<Seq<char>>) -> Seq<Seq<char>> {
    if sandboxed {
        seq!["flatpak-spawn"@, "--host"@] + command
    } else {
        command
    }
}

/// The command that stops the daemon.
pub fn stop_command(sandboxed: bool) -> (r: Vec<String>)
    ensures
        r.deep_view() == on_host(sandboxed, seq!["pkill"@, "-x"@, "powerdisplayd"@]),
{
    let mut command: Vec<String> = Vec::new();
    if sandboxed {
        command.push("flatpak-spawn".to_string());
        command.push("--host".to_string());
    }
    command.push("pkill".to_string());
    command.push("-x".to_string());
    command.push("powerdisplayd".to_string());
    assert(command.deep_view() =~= on_host(
        sandboxed,
        seq!["pkill"@, "-x"@, "powerdisplayd"@],
    ));
    command
}

/// The command that starts the daemon.
pub open spec fn start_text(sandboxed: bool) -> Seq<Seq<char>> {
    if sandboxed {
        on_host(true, seq!["flatpak"@, "run"@, "--command=powerdisplayd"@, FLATPAK_ID@])
    } else {
        seq!["powerdisplayd"@]
    }
}

/// The command that starts the daemon.
pub fn start_command(sandboxed: bool) -> (r: Vec<String>)
    ensures
        r.deep_view() == start_text(sandboxed),
{
    let mut command: Vec<String> = Vec::new();
    if sandboxed {
        command.push("flatpak-spawn".to_string());
        command.push("--host".to_string());
        command.push("flatpak".to_string());
        command.push("run".to_string());
        command.push("--command=powerdisplayd".to_string());
        command.push(FLATPAK_ID.to_string());
    } else {
        command.push("powerdisplayd".to_string());
    }
    assert(command.deep_view() =~= start_text(sandboxed));
    command
}

/// The file that the daemon logs to. `state_home` is `XDG_STATE_HOME`.
pub fn log_path(state_home: &Option<Vec<u8>>, home: &Option<Vec<u8>>) -> (r: Result<
    Vec<u8>,
    PathError,
>)
    ensures
        match (
            r,
            base_directory(state_home.deep_view(), home.deep_view(), ascii(".local/state"@)),
        ) {
            (Ok(got), Some(base)) => got@ == joined_path(base, ascii("powerdisplayd.log"@)),
            (Err(e), None) => e == PathError::NoHome,
            _ => false,
        },
{
    match base_dir(state_home, home, ".local/state") {
        Some(base) => {
            assert(base.deep_view() =~= base@);
            Ok(join_path(&base, "powerdisplayd.log"))
        },
        None => Err(PathError::NoHome),
    }
}

/// The note that autostart was requested.
///
/// The portal writes its autostart entry to the host's `~/.config/autostart`, which the
/// sandbox cannot read back, and it offers no way to query the current state. Without a
/// local note the checkbox would forget its own setting every time the window opens.
pub fn marker_path(xdg_config_home: &Option<Vec<u8>>, home: &Option<Vec<u8>>) -> (r: Result<
    Vec<u8>,
    PathError,
>)
    ensures
        match (r, config_directory(xdg_config_home.deep_view(), home.deep_view())) {
            (Ok(got), Some(dir)) => got@ == joined_path(dir, ascii("autostart-requested"@)),
            (Err(e), None) => e == PathError::NoConfigHome,
            _ => false,
        },
{
    match config_dir(xdg_config_home, home) {
        Ok(dir) => Ok(join_path(&dir, "autostart-requested")),
        Err(e) => Err(e),
    }
}

/// A token for a request to the portal, from the time in nanoseconds.
pub fn request_token(stamp: u128) -> (r: String)
    ensures
        r@ == "powerdisplay_"@ + decimal(stamp as nat),
{
    let mut text = "powerdisplay_".to_string();
    text.append(to_decimal(stamp).as_str());
    text
}

/// A text without the colons at its front.
pub open spec fn after_colons(s: Seq<char>) -> Seq<char>
    decreases s.len(),
{
    if s.len() > 0 && s[0] == ':' {
        after_colons(s.drop_first())
    } else {
        s
    }
}

/// A bus name in the form that the portal uses in paths.
pub open spec fn sender_text(unique: Seq<char>) -> Seq<char> {
    after_colons(unique).map_values(
        |c: char|
            if c == '.' {
                '_'
            } else {
                c
            },
    )
}

/// The object on which the portal answers. It is derived from our bus name and the token we
/// pass, so the path is known in advance: subscribing before the call rather than after the
/// reply is what stops a fast portal from answering into the void.
pub fn request_path(unique: &str, token: &str) -> (r: String)
    ensures
        r@ == "/org/freedesktop/portal/desktop/request/"@ + sender_text(unique@) + "/"@ + token@,
{
    let chars = chars_of(unique);
    let mut from: usize = 0;
    assert(unique@.skip(0) =~= unique@);
    while from < chars.len() && chars[from] == ':'
        invariant
            chars@ == unique@,
            from <= chars.len(),
            after_colons(unique@.skip(from as int)) == after_colons(unique@),
        decreases chars.len() - from,
    {
        assert(unique@.skip(from as int).drop_first() =~= unique@.skip(from + 1));
        from = from + 1;
    }
    let ghost rest = after_colons(unique@);
    assert(rest == unique@.skip(from as int));
    let mut sender = String::new();
    let mut i: usize = from;
    assert(sender@ =~= sender_text(unique@).take(0));
    while i < chars.len()
        invariant
            chars@ == unique@,
            from <= i <= chars.len(),
            rest == after_colons(unique@),
            rest == unique@.skip(from as int),
            sender@ == sender_text(unique@).take(i - from),
        decreases chars.len() - i,
    {
        let c = chars[i];
        assert(rest[i - from] == c);
        sender.push(
            if c == '.' {
                '_'
            } else {
                c
            },
        );
        i = i + 1;
        assert(sender@ =~= sender_text(unique@).take(i - from));
    }
    assert(sender_text(unique@).take(i - from) =~= sender_text(unique@));
    let mut text = "/org/freedesktop/portal/desktop/request/".to_string();
    text.append(sender.as_str());
    text.append("/");
    text.append(token);
    text
}

/// A bus name loses the colons at its front and nothing else, and each dot in it becomes an
/// underscore.
pub proof fn law_how_the_portal_spells_a_bus_name(unique: Seq<char>, n: int, i: int)
    requires
        0 <= n <= unique.len(),
        forall|j: int| 0 <= j < n ==> #[trigger] unique[j] == ':',
        n < unique.len() ==> unique[n] != ':',
        n <= i < unique.len(),
    ensures
        sender_text(unique).len() == unique.len() - n,
        unique[i] == '.' ==> sender_text(unique)[i - n] == '_',
        unique[i] != '.' ==> sender_text(unique)[i - n] == unique[i],
{
    lemma_after_colons(unique, n);
}

proof fn lemma_after_colons(s: Seq<char>, n: int)
    requires
        0 <= n <= s.len(),
        forall|j: int| 0 <= j < n ==> #[trigger] s[j] == ':',
        n < s.len() ==> s[n] != ':',
    ensures
        after_colons(s) == s.skip(n),
    decreases n,
{
    if n == 0 {
        assert(s.skip(0) =~= s);
    } else {
        let rest = s.drop_first();
        assert forall|j: int| 0 <= j < n - 1 implies #[trigger] rest[j] == ':' by {
            assert(rest[j] == s[j + 1]);
        }
        assert(s[0] == ':');
        lemma_after_colons(rest, n - 1);
        assert(rest.skip(n - 1) =~= s.skip(n));
    }
}

/// From inside a sandbox a command is handed to the host, word by word; outside it is run as it
/// is. The daemon is started through Flatpak in the one case and directly in the other.
pub proof fn law_commands_run_on_the_host(command: Seq<Seq<char>>, k: int)
    requires
        0 <= k < command.len(),
    ensures
        on_host(false, command) == command,
        on_host(true, command).len() == command.len() + 2,
        on_host(true, command)[0] == "flatpak-spawn"@,
        on_host(true, command)[1] == "--host"@,
        on_host(true, command)[k + 2] == command[k],
        start_text(false) == seq!["powerdisplayd"@],
        start_text(true).len() == 6,
        start_text(true)[0] == "flatpak-spawn"@ && start_text(true)[1] == "--host"@,
        start_text(true)[2] == "flatpak"@ && start_text(true)[3] == "run"@,
        start_text(true)[4] == "--command=powerdisplayd"@ && start_text(true)[5] == FLATPAK_ID@,
{
}


} // verus!

use powerdisplay::instance::{
    app_still_installed, apply_guard_path, autostart_desktop_contents, host_autostart_path,
    installed_query, is_held, lock_path, try_acquire, wait_until_free, AcquireStep, LockAttempt,
    WaitStep, ACQUIRE_INTERVAL, ACQUIRE_TIMEOUT, FLATPAK_ID,
};
use powerdisplay::paths::PathError;

fn bytes(s: &str) -> Option<Vec<u8>> {
    Some(s.as_bytes().to_vec())
}

fn shown(path: Vec<u8>) -> String {
    String::from_utf8(path).unwrap()
}

#[test]
fn lock_path_is_under_the_runtime_dir() {
    let path = shown(lock_path(&bytes("/run/user/1000"), false));
    assert!(path.ends_with("powerdisplayd.lock"), "{}", path);
    assert_eq!(path, "/run/user/1000/powerdisplayd.lock");
    assert_eq!(
        shown(lock_path(&bytes("/run/user/1000"), true)),
        "/run/user/1000/app/io.github.Emanuel4100.PowerDisplay/powerdisplayd.lock"
    );
    assert_eq!(shown(lock_path(&None, false)), "/tmp/powerdisplayd.lock");
}

#[test]
fn autostart_is_a_no_op_when_the_flatpak_is_gone() {
    let desktop = autostart_desktop_contents();
    assert!(desktop.contains("flatpak info"));
    assert!(desktop.contains("powerdisplayd"));
    assert!(desktop.contains(FLATPAK_ID));
    assert!(
        desktop.contains(">/dev/null 2>&1 && exec"),
        "login must not show an error after Software uninstall:\n{desktop}"
    );
}

#[test]
fn the_autostart_entry_word_for_word() {
    assert_eq!(
        autostart_desktop_contents(),
        "\
[Desktop Entry]
Type=Application
Name=Power Display
Comment=Switch display mode when the charger is plugged in or out
X-GNOME-Autostart-enabled=true
X-Flatpak=io.github.Emanuel4100.PowerDisplay
X-XDP-Autostart=io.github.Emanuel4100.PowerDisplay
Exec=/bin/sh -c \"flatpak info io.github.Emanuel4100.PowerDisplay >/dev/null 2>&1 && exec flatpak run --command=powerdisplayd io.github.Emanuel4100.PowerDisplay\"
"
    );
}

#[test]
fn the_apply_guard_is_a_different_lock_from_the_instance_lock() {
    for sandboxed in [false, true] {
        let runtime = bytes("/run/user/1000");
        assert_ne!(lock_path(&runtime, sandboxed), apply_guard_path(&runtime, sandboxed));
    }
    assert_eq!(
        shown(apply_guard_path(&bytes("/r"), false)),
        "/r/powerdisplayd.apply"
    );
}

#[test]
fn host_autostart_is_not_under_the_flatpak_overlay() {
    let path = shown(host_autostart_path(&bytes("/home/u")).unwrap());
    assert!(path.ends_with("autostart/io.github.Emanuel4100.PowerDisplay.desktop"));
    assert!(!path.contains(".var/app"));
    assert_eq!(
        path,
        "/home/u/.config/autostart/io.github.Emanuel4100.PowerDisplay.desktop"
    );
    assert_eq!(host_autostart_path(&None).unwrap_err(), PathError::NoHome);
}

#[test]
fn a_daemon_tries_for_a_while_before_it_backs_off() {
    let start = 5_000_000_000;
    let deadline = start + ACQUIRE_TIMEOUT;
    assert_eq!(
        try_acquire(LockAttempt::WouldBlock, start, deadline),
        AcquireStep::Retry(ACQUIRE_INTERVAL)
    );
    assert_eq!(
        try_acquire(LockAttempt::WouldBlock, deadline, deadline),
        AcquireStep::GiveUp
    );
    assert_eq!(
        try_acquire(LockAttempt::Taken, deadline + 1, deadline),
        AcquireStep::Acquired
    );
    assert_eq!(try_acquire(LockAttempt::Failed, start, deadline), AcquireStep::Fail);
}

#[test]
fn only_a_lock_that_blocks_is_held() {
    assert!(is_held(Some(LockAttempt::WouldBlock)));
    assert!(!is_held(Some(LockAttempt::Taken)));
    assert!(!is_held(Some(LockAttempt::Failed)));
    assert!(!is_held(None));
}

#[test]
fn waiting_for_the_lock_ends_with_the_deadline() {
    assert_eq!(wait_until_free(false, 9, 1), WaitStep::Free);
    assert_eq!(wait_until_free(true, 0, 1), WaitStep::Sleep(ACQUIRE_INTERVAL));
    assert_eq!(wait_until_free(true, 1, 1), WaitStep::StillHeld);
}

#[test]
fn only_the_host_can_say_that_the_app_is_gone() {
    assert!(app_still_installed(false, Some(false)));
    assert!(app_still_installed(true, None));
    assert!(app_still_installed(true, Some(true)));
    assert!(!app_still_installed(true, Some(false)));
    assert_eq!(
        installed_query(),
        vec!["flatpak-spawn", "--host", "flatpak", "info", FLATPAK_ID]
    );
}

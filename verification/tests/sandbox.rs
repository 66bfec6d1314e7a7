use std::path::Path;

use powerdisplay::display::Output;
use powerdisplay::power::source::{read_supplies, SupplyFiles, SupplyReading, SUPPLY_ROOT};
use powerdisplay::sandbox::{
    check_sysfs_power, format_report, missing_finish_args, missing_installed_permissions,
    path_is_flatpak_overlay, probe, required_flatpak_finish_args, BackendProbe, Check, Probes,
    ProfilesProbe, Report,
};

const MANIFEST: &str = "\
app-id: io.github.Emanuel4100.PowerDisplay
command: powerdisplay
finish-args:
  - --share=ipc
  - --share=network
  - --socket=wayland
  - --socket=fallback-x11
  - --device=dri
  - --filesystem=/run/udev:ro
  - --filesystem=xdg-config/autostart:create
  - --talk-name=org.gnome.Mutter.DisplayConfig
  - --system-talk-name=org.freedesktop.UPower.PowerProfiles
  - --system-talk-name=net.hadess.PowerProfiles
  - --system-talk-name=org.freedesktop.login1
";

#[test]
fn the_flatpak_manifest_keeps_the_permissions_autoswitch_needs() {
    let missing = missing_finish_args(MANIFEST);
    assert!(
        missing.is_empty(),
        "Flatpak manifest dropped permissions required for autoswitch: {missing:?}"
    );
}

#[test]
fn a_manifest_that_drops_permissions_is_caught() {
    assert_eq!(missing_finish_args(""), required_flatpak_finish_args());
    let less = MANIFEST.replace("--socket=wayland", "").replace("--share=network", "");
    assert_eq!(missing_finish_args(&less), vec!["--share=network", "--socket=wayland"]);
}

#[test]
fn installed_permission_parser_accepts_a_healthy_dump() {
    let text = "\
[Context]
shared=ipc;network;
sockets=fallback-x11;wayland;
devices=dri;
filesystems=/run/udev:ro;xdg-config/autostart;

[Session Bus Policy]
org.gnome.Mutter.DisplayConfig=talk

[System Bus Policy]
org.freedesktop.UPower.PowerProfiles=talk
org.freedesktop.login1=talk
";
    assert!(missing_installed_permissions(text).is_empty());
}

#[test]
fn installed_permission_parser_catches_a_missing_network_share() {
    let text = "\
[Context]
shared=ipc;
filesystems=/run/udev:ro;
";
    let missing = missing_installed_permissions(text);
    assert!(missing.iter().any(|m| m.contains("network")), "{missing:?}");
}

#[test]
fn an_empty_dump_misses_everything() {
    assert_eq!(
        missing_installed_permissions(""),
        vec![
            "share=network (udev netlink lives in the host network namespace)",
            "filesystem=/run/udev:ro",
            "filesystem=xdg-config/autostart",
            "talk-name=org.gnome.Mutter.DisplayConfig",
            "system-talk-name for power-profiles-daemon",
        ]
    );
    assert!(!missing_installed_permissions("net.hadess.PowerProfiles=talk")
        .contains(&"system-talk-name for power-profiles-daemon"));
}

#[test]
fn flatpak_overlay_paths_are_recognised() {
    let path = "/home/u/.var/app/io.github.Emanuel4100.PowerDisplay/config/powerdisplay/config.toml";
    assert!(path_is_flatpak_overlay(path));
    assert!(!path_is_flatpak_overlay("/home/u/.config/powerdisplay/config.toml"));
}

#[test]
fn the_overlay_is_a_whole_part_of_the_path() {
    assert!(!path_is_flatpak_overlay("/home/u/x.var/io.github.Emanuel4100.PowerDisplay"));
    assert!(!path_is_flatpak_overlay("/home/u/.variant/io.github.Emanuel4100.PowerDisplay"));
    assert!(!path_is_flatpak_overlay("/home/u/.var/app/other"));
    assert!(path_is_flatpak_overlay("/io.github.Emanuel4100.PowerDisplay/.var"));
}

fn reading() -> SupplyReading {
    SupplyReading {
        kind: "Battery".into(),
        online: None,
        status: Some("Discharging".into()),
    }
}

#[test]
fn sysfs_probe_sees_this_machine() {
    // The caller reads the files; what a laptop's battery leaves there must be enough.
    if !Path::new(SUPPLY_ROOT).is_dir() {
        return;
    }
    let supplies = read_supplies(&vec![SupplyFiles {
        kind: Some("Battery\n".into()),
        online: None,
        status: Some("Discharging\n".into()),
    }]);
    let mut report = Report::default();
    check_sysfs_power(&mut report, &Some(supplies));
    assert!(report.checks[0].ok, "{:?}", report.checks[0]);
}

#[test]
fn supplies_are_listed_in_the_report() {
    let mut report = Report::default();
    let mains = SupplyReading {
        kind: "Mains".into(),
        online: Some(false),
        status: None,
    };
    check_sysfs_power(&mut report, &Some(vec![reading(), mains]));
    assert!(report.checks[0].ok, "{:?}", report.checks[0]);
    assert_eq!(
        report.checks[0].detail,
        "On battery → 2; Battery online=None status=\"Discharging\", Mains online=Some(false) status=\"\""
    );
    let mut report = Report::default();
    check_sysfs_power(&mut report, &Some(vec![]));
    check_sysfs_power(&mut report, &None);
    assert!(!report.checks[0].ok && report.checks[0].required);
    assert_eq!(
        report.checks[1].detail,
        "/sys/class/power_supply is missing; charger events cannot be read"
    );
}

fn healthy() -> Probes {
    Probes {
        sandboxed: false,
        config_path: Ok("/home/u/.config/powerdisplay/config.toml".into()),
        supplies: Some(vec![reading()]),
        udev: Ok(()),
        uevents: Err("not permitted".into()),
        backend: BackendProbe::Listed(
            "X11 (RandR)",
            vec![
                Output {
                    connector: "eDP-1".into(),
                    enabled: true,
                    ..Default::default()
                },
                Output {
                    connector: "DP-1".into(),
                    ..Default::default()
                },
            ],
        ),
        profiles: Some(ProfilesProbe {
            service: "net.hadess.PowerProfiles",
            active: "balanced".into(),
            available: vec!["power-saver".into(), "balanced".into()],
        }),
        run_udev: true,
    }
}

#[test]
fn a_healthy_machine_passes() {
    let report = probe(&healthy());
    assert!(report.passed());
    assert!(report.failed_required().is_empty());
    assert_eq!(
        format_report(&report),
        "\
[  ok] sandbox: not a Flatpak; host tools and paths apply
[  ok] config path: /home/u/.config/powerdisplay/config.toml
[  ok] sysfs power_supply: On battery → 1; Battery online=None status=\"Discharging\"
[  ok] udev userspace: Userspace monitor accepted a socket
[warn] udev kernel uevents: not permitted
[  ok] display backend: X11 (RandR): eDP-1, DP-1 (off)
[  ok] power profiles: net.hadess.PowerProfiles active=balanced available=[power-saver, balanced]
[  ok] /run/udev: present; userspace udev can look up devices
self-test passed
"
    );
}

#[test]
fn a_broken_machine_fails() {
    let mut probes = healthy();
    probes.sandboxed = true;
    probes.supplies = None;
    probes.backend = BackendProbe::Unlisted("X11 (RandR)", "gone".into());
    probes.profiles = None;
    probes.run_udev = false;
    let report = probe(&probes);
    assert!(!report.passed());
    let names: Vec<&str> = report.failed_required().iter().map(|c| c.name).collect();
    assert_eq!(names, vec!["config path", "sysfs power_supply", "display backend"]);
    let text = format_report(&report);
    assert!(text.contains(
        "[FAIL] config path: /home/u/.config/powerdisplay/config.toml is not under the Flatpak XDG overlay"
    ));
    assert!(text.contains("[FAIL] display backend: X11 (RandR) connected but listing failed: gone\n"));
    assert!(text.contains("[warn] /run/udev: missing;"));
    assert!(text.contains("none on the system bus"));
    assert!(text.ends_with("self-test failed\n"));

    let mut probes = healthy();
    probes.config_path = Err("HOME is not set".into());
    probes.backend = BackendProbe::Missing("none".into());
    let report = probe(&probes);
    assert_eq!(report.checks[1].detail, "HOME is not set");
    assert_eq!(report.checks[5].detail, "none");
    assert_eq!(report.failed_required().len(), 2);

    let mut probes = healthy();
    probes.backend = BackendProbe::Listed("X11 (RandR)", vec![]);
    assert!(!probe(&probes).passed());
}

#[test]
fn only_required_checks_fail_a_report() {
    let check = |required: bool, ok: bool| Check {
        name: "x",
        required,
        ok,
        detail: String::new(),
    };
    let report = Report {
        checks: vec![check(false, false), check(true, true)],
    };
    assert!(report.passed());
    let report = Report {
        checks: vec![check(true, false)],
    };
    assert!(!report.passed());
}

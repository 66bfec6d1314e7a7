use powerdisplay::autostart::{
    log_path, marker_path, may_set_enabled, portal_answer, request_path, request_token,
    set_enabled, start_command, stop, stop_command, wants_fresh_daemon, ServiceStep,
};
use powerdisplay::config::{Config, OutputMatch, OutputRule, PowerState, Profile};
use powerdisplay::display::{format_mode_id, resolve_settings, Mode, Output};
use powerdisplay::double::quotient;
use powerdisplay::page::{
    build_rows, collect_page, collect_row, fill_refresh, group_modes, pretty_profile,
    profile_names, resolution_label, selected_profile, Row, LEAVE_UNCHANGED,
};
use powerdisplay::paths::PathError;
use powerdisplay::window::{
    collect, for_apply_now, listing_failure, save_failure, saved_message, session_lines, tab_name,
    tab_state,
};

fn mode(width: u32, height: u32, hertz: u64) -> Mode {
    Mode {
        id: format_mode_id(width, height, quotient(hertz, 1)),
        width,
        height,
        refresh: quotient(hertz, 1),
        preferred: false,
        current: false,
    }
}

fn panel() -> Output {
    let mut modes = vec![
        mode(1920, 1080, 60),
        mode(2880, 1800, 60),
        mode(1920, 1080, 144),
        mode(1080, 1920, 50),
        mode(2880, 1800, 120),
    ];
    modes[4].preferred = true;
    modes[4].current = true;
    modes.push(Mode {
        id: "2880x1800@120.000+vrr".into(),
        ..modes[4].clone()
    });
    Output {
        connector: "eDP-1".into(),
        modes,
        current_mode: Some("2880x1800@120.000".into()),
        enabled: true,
        ..Default::default()
    }
}

fn rule(connector: &str, mode: Option<&str>) -> OutputRule {
    OutputRule {
        matcher: OutputMatch {
            connector: Some(connector.into()),
            ..Default::default()
        },
        mode: mode.map(str::to_string),
    }
}

#[test]
fn menus_start_with_the_largest_and_the_fastest() {
    let groups = group_modes(&panel());
    let sizes: Vec<(u32, u32, usize)> =
        groups.iter().map(|g| (g.width, g.height, g.modes.len())).collect();
    assert_eq!(sizes, vec![(2880, 1800, 2), (1920, 1080, 2), (1080, 1920, 1)]);
    assert_eq!(groups[0].modes[0].refresh, quotient(120, 1));
    assert_eq!(groups[1].modes[0].refresh, quotient(144, 1));
    assert_eq!(resolution_label(&groups[0]), "2880 × 1800  (native)");
    assert_eq!(resolution_label(&groups[1]), "1920 × 1080");
}

#[test]
fn the_menu_of_rates_stands_on_the_wanted_mode() {
    let groups = group_modes(&panel());
    let menu = fill_refresh(&groups, 0, Some(&mode(2880, 1800, 60))).unwrap();
    assert_eq!(menu.labels, vec!["120.00 Hz  (current)", "60.00 Hz"]);
    assert_eq!(menu.selected, 1);
    assert_eq!(fill_refresh(&groups, 0, None).unwrap().selected, 0);
    assert_eq!(fill_refresh(&groups, 1, Some(&mode(1920, 1080, 75))).unwrap().selected, 0);
    assert!(fill_refresh(&groups, 3, None).is_none());
    let twin = Mode {
        id: "2880x1800@60.000+vrr".into(),
        ..mode(2880, 1800, 60)
    };
    assert_eq!(fill_refresh(&groups, 0, Some(&twin)).unwrap().selected, 1);
}

#[test]
fn a_row_starts_on_its_rule_or_on_what_the_display_does() {
    let output = panel();
    let ruled = rule("eDP-1", Some("1920x1080@60.000"));
    let row = Row::build(&output, Some(&ruled));
    assert!(row.active && row.sensitive);
    assert_eq!((row.resolution, row.refresh), (1, 1));
    let row = Row::build(&output, None);
    assert!(!row.active);
    assert_eq!((row.resolution, row.refresh), (0, 0));
    let row = Row::build(&output, Some(&rule("eDP-1", None)));
    assert!(!row.active);
    let row = Row::build(&output, Some(&rule("eDP-1", Some("640x480@60"))));
    assert!(row.active);
    assert_eq!((row.resolution, row.refresh), (0, 0));
    let row = Row::build(&Output::default(), None);
    assert!(!row.sensitive);
}

#[test]
fn an_untouched_row_reads_back_as_its_mode() {
    let output = panel();
    let row = Row::build(&output, Some(&rule("eDP-1", Some("1920x1080@60.000"))));
    let read = collect_row(&output, &row.groups, true, row.resolution, row.refresh).unwrap();
    assert_eq!(read.mode.as_deref(), Some("1920x1080@60.000"));
    assert_eq!(read.matcher, output.matcher());
    assert!(collect_row(&output, &row.groups, false, 0, 0).is_none());
    assert!(collect_row(&output, &row.groups, true, 9, 0).is_none());
    assert!(collect_row(&output, &row.groups, true, 0, 9).is_none());
}

#[test]
fn a_page_keeps_the_rules_of_absent_displays() {
    let outputs = vec![panel()];
    let rules = vec![
        rule("HDMI-1", Some("3840x2160@60.000")),
        rule("eDP-1", Some("1920x1080@144.000")),
    ];
    let rows = build_rows(&rules, &outputs);
    assert_eq!(rows.len(), 1);
    assert_eq!((rows[0].resolution, rows[0].refresh), (1, 0));
    let names = profile_names(&vec!["power-saver".into(), "balanced".into()]);
    assert_eq!(names, vec![LEAVE_UNCHANGED, "power-saver", "balanced"]);
    let read = vec![collect_row(
        &outputs[0],
        &rows[0].groups,
        rows[0].active,
        rows[0].resolution,
        rows[0].refresh,
    )];
    let profile = collect_page(&names, 2, true, &read, &rules, &outputs);
    assert_eq!(profile.power_profile.as_deref(), Some("balanced"));
    assert!(profile.persist_display_config);
    assert_eq!(profile.outputs.len(), 2);
    assert_eq!(profile.outputs[0].mode.as_deref(), Some("1920x1080@144.000"));
    assert_eq!(profile.outputs[1], rules[0]);
    let unticked = collect_page(&names, 0, false, &vec![None], &rules, &outputs);
    assert_eq!(unticked.power_profile, None);
    assert_eq!(unticked.outputs, vec![rules[0].clone()]);
    assert_eq!(collect_page(&names, 7, false, &vec![], &vec![], &outputs).power_profile, None);
}

#[test]
fn the_menu_of_power_profiles() {
    let names = profile_names(&vec!["power-saver".into(), "balanced".into()]);
    assert_eq!(selected_profile(&names, &Some("balanced".into())), 2);
    assert_eq!(selected_profile(&names, &Some("gone".into())), 0);
    assert_eq!(selected_profile(&names, &None), 0);
    assert_eq!(pretty_profile(LEAVE_UNCHANGED), "Leave unchanged");
    assert_eq!(pretty_profile("power-saver"), "Power saver");
    assert_eq!(pretty_profile("balanced"), "Balanced");
    assert_eq!(pretty_profile("balanced-performance"), "Balanced performance");
    assert_eq!(pretty_profile("performance"), "Performance");
    assert_eq!(pretty_profile("low_power-mode"), "Low power mode");
    assert_eq!(pretty_profile("élan-vital"), "élan vital");
    assert_eq!(pretty_profile("-x"), " x");
    assert_eq!(pretty_profile(""), "");
}

#[test]
fn tabs_belong_to_power_states() {
    for state in [PowerState::Battery, PowerState::Ac] {
        assert_eq!(tab_state(&Some(tab_name(state).to_string())), state);
    }
    assert_eq!(tab_state(&None), PowerState::Ac);
}

#[test]
fn the_window_keeps_what_it_does_not_show() {
    let old = Config {
        version: 0,
        apply_on_start: false,
        ..Default::default()
    };
    let battery = Profile {
        power_profile: Some("power-saver".into()),
        ..Default::default()
    };
    let config = collect(&old, false, battery, Profile::default());
    assert_eq!(config.version, 1);
    assert!(!config.enabled);
    assert!(!config.apply_on_start);
    assert_eq!(config.on_battery.power_profile.as_deref(), Some("power-saver"));
    assert!(for_apply_now(config).enabled);
}

#[test]
fn messages() {
    assert_eq!(
        saved_message(true, true),
        "Saved. The background service has picked it up."
    );
    assert_eq!(
        saved_message(false, true),
        "Saved. Turn on automatic switching in the menu to apply it in the background."
    );
    assert_eq!(
        saved_message(false, false),
        "Saved. Start powerdisplayd to apply it automatically."
    );
    assert_eq!(save_failure("full"), "Could not save: full");
    assert_eq!(listing_failure("gone"), "Could not list displays: gone");
    assert_eq!(
        session_lines("X11 (RandR)", PowerState::Ac, Some("svc")),
        vec!["Session: X11 (RandR)", "Power source: Plugged in", "Power profiles: svc"]
    );
    assert_eq!(
        session_lines("b", PowerState::Battery, None)[2],
        "Power profiles: unavailable"
    );
}

#[test]
fn switching_the_service_on_and_off() {
    assert_eq!(set_enabled(true, true).unwrap(), ServiceStep::EnableAndRestart);
    assert_eq!(set_enabled(false, false).unwrap(), ServiceStep::DisableAndStop);
    assert_eq!(set_enabled(false, true).unwrap(), ServiceStep::DisableAndStop);
    assert_eq!(
        set_enabled(true, false).unwrap_err(),
        "the desktop refused permission to run in the background"
    );
    assert!(may_set_enabled(true).is_ok());
    assert_eq!(
        may_set_enabled(false).unwrap_err(),
        "no way to start the background service on this system"
    );
    assert!(wants_fresh_daemon(true, true));
    assert!(!wants_fresh_daemon(true, false));
    assert!(portal_answer(0, Some(true)));
    assert!(!portal_answer(0, None));
    assert!(!portal_answer(1, Some(true)));
}

#[test]
fn stopping_nothing_is_fine() {
    assert!(stop(true, Some(0), "exit status: 0").is_ok());
    assert!(stop(false, Some(1), "exit status: 1").is_ok());
    assert_eq!(
        stop(false, Some(2), "exit status: 2").unwrap_err(),
        "pkill exited with exit status: 2"
    );
    assert!(stop(false, None, "signal: 9").is_err());
    assert_eq!(stop_command(false), vec!["pkill", "-x", "powerdisplayd"]);
    assert_eq!(
        stop_command(true),
        vec!["flatpak-spawn", "--host", "pkill", "-x", "powerdisplayd"]
    );
    assert_eq!(start_command(false), vec!["powerdisplayd"]);
    assert_eq!(
        start_command(true),
        vec![
            "flatpak-spawn",
            "--host",
            "flatpak",
            "run",
            "--command=powerdisplayd",
            "io.github.Emanuel4100.PowerDisplay",
        ]
    );
}

#[test]
fn where_the_service_leaves_its_notes() {
    let home = Some(b"/home/u".to_vec());
    assert_eq!(
        log_path(&None, &home).unwrap(),
        b"/home/u/.local/state/powerdisplayd.log".to_vec()
    );
    assert_eq!(
        log_path(&Some(b"/state".to_vec()), &None).unwrap(),
        b"/state/powerdisplayd.log".to_vec()
    );
    assert_eq!(log_path(&None, &None).unwrap_err(), PathError::NoHome);
    assert_eq!(
        marker_path(&None, &home).unwrap(),
        b"/home/u/.config/powerdisplay/autostart-requested".to_vec()
    );
    assert!(marker_path(&None, &None).is_err());
}

#[test]
fn the_portal_answers_on_a_path_known_in_advance() {
    assert_eq!(request_token(1_700_000_000_123_456_789), "powerdisplay_1700000000123456789");
    assert_eq!(
        request_path(":1.42", "t"),
        "/org/freedesktop/portal/desktop/request/1_42/t"
    );
    assert_eq!(
        request_path("::a.b.c", "t"),
        "/org/freedesktop/portal/desktop/request/a_b_c/t"
    );
}

#[test]
fn the_window_shows_what_the_daemon_applies() {
    let mut first = panel();
    first.make = "Dell".into();
    let mut second = panel();
    second.connector = "DP-2".into();
    second.make = "Dell".into();
    let outputs = vec![first, second];
    let rules = vec![OutputRule {
        matcher: OutputMatch {
            make: Some("dell".into()),
            ..Default::default()
        },
        mode: Some("1920x1080@144".into()),
    }];
    let (settings, _) = resolve_settings(&rules, &outputs);
    let rows = build_rows(&rules, &outputs);
    assert_eq!(settings.len(), 1);
    for (output, row) in outputs.iter().zip(&rows) {
        let applied = settings.iter().find(|s| s.connector == output.connector);
        assert_eq!(row.active, applied.is_some());
        if let Some(setting) = applied {
            let shown = &row.groups[row.resolution].modes[row.refresh];
            assert_eq!(shown.id, setting.mode_id);
        }
    }
}

#[test]
fn a_row_on_a_hidden_twin_stands_on_the_plain_one() {
    let mut output = panel();
    output.modes.push(Mode {
        id: "2880x1800@60.000+vrr".into(),
        ..mode(2880, 1800, 60)
    });
    output.current_mode = Some("2880x1800@60.000+vrr".into());
    let row = Row::build(&output, None);
    assert_eq!(row.groups[row.resolution].modes[row.refresh].id, "2880x1800@60.000");
    let read = collect_row(&output, &row.groups, true, row.resolution, row.refresh).unwrap();
    assert_eq!(read.mode.as_deref(), Some("2880x1800@60.000"));
}

use powerdisplay::config::{Config, PowerState};
use powerdisplay::control::Controller;
use powerdisplay::daemon::{
    after_apply, log_report, next_session_delay, parse_args, show_output, show_profiles, take_in, watch_step,
    Command, Level, Options, Parsed, Reaction, WatchStep, FIRST_SESSION_DELAY, UNINSTALL_POLL,
    USAGE,
};
use powerdisplay::display::{Mode, Output};
use powerdisplay::double::Double;
use powerdisplay::engine::ApplyReport;
use powerdisplay::events::{Event, MILLISECOND, SECOND};

fn args(list: &[&str]) -> Vec<String> {
    list.iter().map(|a| a.to_string()).collect()
}

#[test]
fn options_add_up() {
    let parsed = parse_args(&args(&["--dry-run", "-v", "--apply-now"])).unwrap();
    let want = Options {
        apply_now: true,
        dry_run: true,
        verbose: true,
        ..Default::default()
    };
    assert_eq!(parsed, Parsed::Run(want));
    assert_eq!(want.command(), Command::ApplyNow);
    assert_eq!(want.log_level(), "debug");
    assert_eq!(parse_args(&args(&[])).unwrap(), Parsed::Run(Options::default()));
    assert_eq!(Options::default().command(), Command::Watch);
    assert_eq!(Options::default().log_level(), "info");
}

#[test]
fn the_self_test_comes_before_everything_else() {
    let all = parse_args(&args(&["--apply-now", "--show", "--self-test"])).unwrap();
    if let Parsed::Run(options) = all {
        assert_eq!(options.command(), Command::SelfTest);
        let shown = Options { self_test: false, ..options };
        assert_eq!(shown.command(), Command::Show);
    } else {
        panic!("{all:?}");
    }
}

#[test]
fn the_first_thing_that_ends_the_command_line_counts() {
    assert_eq!(parse_args(&args(&["--show", "-h", "--bogus"])).unwrap(), Parsed::Help);
    assert_eq!(parse_args(&args(&["--version"])).unwrap(), Parsed::Version);
    assert_eq!(
        parse_args(&args(&["--bo\"gus", "--help"])).unwrap_err(),
        "unknown argument \"--bo\\\"gus\""
    );
    assert!(USAGE.starts_with("powerdisplayd - apply"));
    assert!(USAGE.ends_with("to override display backend detection.\n"));
}

#[test]
fn waiting_for_a_session_doubles_up_to_half_a_minute() {
    let mut delay = FIRST_SESSION_DELAY;
    let mut seen = Vec::new();
    for _ in 0..6 {
        seen.push(delay / SECOND);
        delay = next_session_delay(delay);
    }
    assert_eq!(seen, vec![2, 4, 8, 16, 30, 30]);
}

#[test]
fn a_due_apply_comes_before_the_next_event() {
    let now = 100 * SECOND;
    let mut c = Controller::new(Config::default(), PowerState::Ac, now);
    assert_eq!(watch_step(&mut c, true, now), WatchStep::Wait(1500 * MILLISECOND));
    let later = now + 1500 * MILLISECOND;
    take_in(&mut c, Event::Power(PowerState::Ac), later);
    assert_eq!(watch_step(&mut c, true, later), WatchStep::Apply);
    assert_eq!(watch_step(&mut c, true, later), WatchStep::Wait(UNINSTALL_POLL));
    assert_eq!(watch_step(&mut c, false, later), WatchStep::CleanUp);
}

#[test]
fn a_long_wait_is_cut_to_the_poll() {
    let now = 100 * SECOND;
    let mut c = Controller::new(Config::default(), PowerState::Ac, now);
    assert_eq!(watch_step(&mut c, true, now + 2 * SECOND), WatchStep::Apply);
    for _ in 0..4 {
        c.schedule_retry(now);
    }
    assert_eq!(watch_step(&mut c, true, now), WatchStep::Wait(UNINSTALL_POLL));
}

#[test]
fn a_refused_apply_is_put_off_and_a_completed_one_recorded() {
    let now = 100 * SECOND;
    let mut c = Controller::new(Config::default(), PowerState::Ac, now);
    assert_eq!(watch_step(&mut c, true, now + 2 * SECOND), WatchStep::Apply);
    let mut refused = ApplyReport::default();
    refused.errors.push("no".into());
    let mut delays = Vec::new();
    while let Some(delay) = after_apply(&mut c, &refused, PowerState::Battery, now) {
        delays.push(delay / SECOND);
        assert!(!c.due(now + delay - 1));
        assert_eq!(watch_step(&mut c, true, now + delay), WatchStep::Apply);
    }
    assert_eq!(delays, vec![1, 3, 10, 30]);
    assert_eq!(c.state(), PowerState::Ac);
    assert!(c.wait(now).is_none());

    assert_eq!(after_apply(&mut c, &ApplyReport::default(), PowerState::Battery, now), None);
    assert_eq!(c.state(), PowerState::Battery);
    assert_eq!(after_apply(&mut c, &refused, PowerState::Battery, now), Some(SECOND));
}

#[test]
fn a_config_event_only_asks_for_the_settings() {
    let now = 100 * SECOND;
    let mut c = Controller::new(
        Config {
            apply_on_start: false,
            ..Default::default()
        },
        PowerState::Ac,
        now,
    );
    assert_eq!(take_in(&mut c, Event::ConfigChanged, now), Reaction::LoadConfig);
    assert!(c.wait(now).is_none());
    assert_eq!(take_in(&mut c, Event::Resumed, now), Reaction::Nothing);
    assert_eq!(c.wait(now), Some(2500 * MILLISECOND));
}

#[test]
fn the_log_of_an_apply() {
    let mut report = ApplyReport::default();
    let lines = log_report(&report);
    assert_eq!(lines.len(), 1);
    assert_eq!(lines[0].level, Level::Debug);
    assert_eq!(lines[0].text, "already in the requested state");
    report.warnings.push("w".into());
    assert_eq!(log_report(&report).len(), 1);
    report.errors.push("e".into());
    report.actions.push("a".into());
    report.actions.push("b".into());
    let lines = log_report(&report);
    let shown: Vec<(Level, &str)> = lines.iter().map(|l| (l.level, l.text.as_str())).collect();
    assert_eq!(
        shown,
        vec![(Level::Warn, "w"), (Level::Error, "e"), (Level::Info, "a; b")]
    );
}

#[test]
fn what_show_prints() {
    let mode = |id: &str, refresh: f64| Mode {
        id: id.into(),
        width: 1,
        height: 1,
        refresh: Double { bits: refresh.to_bits() },
        preferred: false,
        current: false,
    };
    let output = Output {
        connector: "eDP-1".into(),
        modes: vec![
            mode("1920x1080@60.000", 60.0),
            mode("1920x1080@59.810825347900391-long", 59.810825347900391),
        ],
        current_mode: Some("1920x1080@60.000".into()),
        enabled: true,
        ..Default::default()
    };
    assert_eq!(
        show_output(&output),
        vec![
            "eDP-1 [active]",
            "  * 1920x1080@60.000             60.00 Hz",
            "    1920x1080@59.810825347900391-long 59.81 Hz",
            "",
        ]
    );
    assert_eq!(
        format!("  * {:<28} {}", "1920x1080@60.000", "60.00 Hz"),
        show_output(&output)[1]
    );
    let off = Output {
        connector: "DP-1".into(),
        ..Default::default()
    };
    assert_eq!(show_output(&off), vec!["DP-1 [inactive]", ""]);
    assert_eq!(
        show_profiles("svc", "balanced", &vec!["power-saver".into(), "balanced".into()]),
        vec!["Power profiles: svc", "    power-saver", "  * balanced"]
    );
}

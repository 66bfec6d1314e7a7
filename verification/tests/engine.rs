use powerdisplay::config::{Config, OutputMatch, OutputRule, PowerState, Profile};
use powerdisplay::display::{format_mode_id, Mode, Output, OutputSetting};
use powerdisplay::double::quotient;
use powerdisplay::engine::{ApplyReport, Run, Session, Work};

fn test_output(connector: &str, modes: &[(u32, u32, u64)]) -> Output {
    Output {
        connector: connector.to_string(),
        modes: modes
            .iter()
            .map(|&(width, height, hertz)| Mode {
                id: format_mode_id(width, height, quotient(hertz, 1)),
                width,
                height,
                refresh: quotient(hertz, 1),
                preferred: false,
                current: false,
            })
            .collect(),
        enabled: true,
        ..Default::default()
    }
}

/// Stands in for a compositor, and can be told to refuse so the failure paths are
/// exercised too.
struct Stub {
    outputs: Vec<Output>,
    refuse: bool,
    refuse_apply: bool,
    active: Option<String>,
    refuse_profile: bool,
    applied: Vec<(Vec<OutputSetting>, bool)>,
    selected: Vec<String>,
    read: usize,
}

impl Stub {
    fn new(outputs: Vec<Output>) -> Self {
        Stub {
            outputs,
            refuse: false,
            refuse_apply: false,
            active: None,
            refuse_profile: false,
            applied: Vec::new(),
            selected: Vec::new(),
            read: 0,
        }
    }
}

struct Engine {
    backend: Stub,
    session: Session,
}

impl Engine {
    fn with_backend(backend: Stub, dry_run: bool) -> Self {
        Engine {
            backend,
            session: Session {
                dry_run,
                supports_persist: true,
                has_profiles: false,
            },
        }
    }

    fn apply(&mut self, config: &Config, state: PowerState) -> ApplyReport {
        let mut run = Run::begin(config, state, self.session);
        loop {
            match run.work() {
                Work::ListDisplays => {
                    let listed = if self.backend.refuse {
                        Err("no".to_string())
                    } else {
                        Ok(self.backend.outputs.clone())
                    };
                    run.listed(listed);
                }
                Work::Apply(settings, persist) => {
                    self.backend.applied.push((settings.clone(), persist));
                    let outcome = if self.backend.refuse_apply {
                        Err("the compositor rejected the configuration".to_string())
                    } else {
                        Ok(())
                    };
                    run.applied(outcome);
                }
                Work::ReadProfile => {
                    self.backend.read += 1;
                    run.read(self.backend.active.clone());
                }
                Work::SelectProfile(name) => {
                    self.backend.selected.push(name.to_string());
                    let outcome = if self.backend.refuse_profile {
                        Err("held".to_string())
                    } else {
                        Ok(())
                    };
                    run.selected(outcome);
                }
                Work::Nothing => return run.report().clone(),
            }
        }
    }
}

fn rule(connector: &str, mode: &str) -> OutputRule {
    OutputRule {
        matcher: OutputMatch {
            connector: Some(connector.into()),
            ..Default::default()
        },
        mode: Some(mode.into()),
    }
}

fn config_with(profile: Profile) -> Config {
    Config {
        on_battery: profile,
        ..Default::default()
    }
}

fn laptop() -> Vec<Output> {
    vec![test_output("eDP-1", &[(1920, 1080, 60), (2880, 1800, 120)])]
}

fn engine_with_laptop(dry_run: bool) -> Engine {
    Engine::with_backend(Stub::new(laptop()), dry_run)
}

#[test]
fn a_matching_rule_reaches_the_backend() {
    let mut engine = engine_with_laptop(false);

    let config = config_with(Profile {
        outputs: vec![rule("eDP-1", "1920x1080@60.000")],
        ..Default::default()
    });
    let report = engine.apply(&config, PowerState::Battery);

    assert!(report.succeeded(), "{report:?}");
    assert_eq!(report.actions, vec!["set eDP-1 to 1920x1080@60.000"]);

    let calls = &engine.backend.applied;
    assert_eq!(calls.len(), 1);
    assert_eq!(calls[0].0[0].mode_id, "1920x1080@60.000");
}

#[test]
fn the_master_switch_stops_everything() {
    let mut engine = engine_with_laptop(false);
    let config = Config {
        enabled: false,
        on_battery: Profile {
            outputs: vec![rule("eDP-1", "1920x1080@60.000")],
            ..Default::default()
        },
        ..Default::default()
    };

    let report = engine.apply(&config, PowerState::Battery);
    assert!(report.actions.is_empty());
    assert_eq!(report.warnings, vec!["powerdisplay is turned off"]);
    assert!(engine.backend.applied.is_empty());
}

#[test]
fn a_dry_run_changes_nothing() {
    let mut engine = engine_with_laptop(true);

    let config = config_with(Profile {
        outputs: vec![rule("eDP-1", "2880x1800@120.000")],
        ..Default::default()
    });
    let report = engine.apply(&config, PowerState::Battery);

    assert_eq!(report.actions, vec!["would set eDP-1 to 2880x1800@120.000"]);
    assert!(engine.backend.applied.is_empty());
}

#[test]
fn an_unplugged_monitor_does_not_hold_back_the_laptop_panel() {
    let mut engine = engine_with_laptop(false);
    let config = config_with(Profile {
        outputs: vec![
            rule("DP-3", "3840x2160@60.000"),
            rule("eDP-1", "1920x1080@60.000"),
        ],
        ..Default::default()
    });

    let report = engine.apply(&config, PowerState::Battery);
    assert!(report.succeeded(), "{report:?}");
    assert_eq!(report.actions, vec!["set eDP-1 to 1920x1080@60.000"]);
    assert_eq!(report.warnings.len(), 1);
}

#[test]
fn a_mode_the_panel_cannot_do_is_reported_not_applied() {
    let mut engine = engine_with_laptop(false);
    let config = config_with(Profile {
        outputs: vec![rule("eDP-1", "5120x2880@60.000")],
        ..Default::default()
    });

    let report = engine.apply(&config, PowerState::Battery);
    assert!(report.actions.is_empty());
    assert_eq!(
        report.warnings,
        vec!["eDP-1 cannot do 5120x2880@60.000; leaving it unchanged"]
    );
}

#[test]
fn a_refusing_compositor_becomes_an_error() {
    let mut stub = Stub::new(laptop());
    stub.refuse = true;
    let mut engine = Engine::with_backend(stub, false);

    let config = config_with(Profile {
        outputs: vec![rule("eDP-1", "1920x1080@60.000")],
        ..Default::default()
    });
    let report = engine.apply(&config, PowerState::Battery);

    assert!(!report.succeeded());
    assert!(report.errors[0].contains("could not list displays"), "{report:?}");
}

#[test]
fn a_missing_power_profiles_service_only_warns() {
    let mut engine = engine_with_laptop(false);
    let config = config_with(Profile {
        power_profile: Some("power-saver".into()),
        outputs: vec![rule("eDP-1", "1920x1080@60.000")],
        ..Default::default()
    });

    let report = engine.apply(&config, PowerState::Battery);
    assert!(report.succeeded(), "{report:?}");
    assert_eq!(report.actions, vec!["set eDP-1 to 1920x1080@60.000"]);
    assert_eq!(
        report.warnings,
        vec!["no power profiles service, cannot select power-saver"]
    );
}

#[test]
fn the_persist_flag_is_passed_through() {
    let mut engine = engine_with_laptop(false);

    let config = config_with(Profile {
        persist_display_config: true,
        outputs: vec![rule("eDP-1", "1920x1080@60.000")],
        ..Default::default()
    });
    engine.apply(&config, PowerState::Battery);

    assert!(engine.backend.applied[0].1);
}

#[test]
fn each_power_state_uses_its_own_profile() {
    let mut engine = engine_with_laptop(true);
    let config = Config {
        on_battery: Profile {
            outputs: vec![rule("eDP-1", "1920x1080@60.000")],
            ..Default::default()
        },
        on_ac: Profile {
            outputs: vec![rule("eDP-1", "2880x1800@120.000")],
            ..Default::default()
        },
        ..Default::default()
    };

    assert_eq!(
        engine.apply(&config, PowerState::Battery).actions,
        vec!["would set eDP-1 to 1920x1080@60.000"]
    );
    assert_eq!(
        engine.apply(&config, PowerState::Ac).actions,
        vec!["would set eDP-1 to 2880x1800@120.000"]
    );
}

#[test]
fn a_desktop_that_cannot_persist_is_not_asked_to() {
    let mut engine = engine_with_laptop(false);
    engine.session.supports_persist = false;
    let config = config_with(Profile {
        persist_display_config: true,
        outputs: vec![rule("eDP-1", "1920x1080@60.000")],
        ..Default::default()
    });
    engine.apply(&config, PowerState::Battery);
    assert!(!engine.backend.applied[0].1);
}

fn saver() -> Config {
    config_with(Profile {
        power_profile: Some("power-saver".into()),
        ..Default::default()
    })
}

#[test]
fn a_power_profile_is_selected_only_when_needed() {
    let mut engine = engine_with_laptop(false);
    engine.session.has_profiles = true;
    let report = engine.apply(&saver(), PowerState::Battery);
    assert_eq!(report.actions, vec!["selected the power-saver power profile"]);
    assert_eq!(engine.backend.selected, vec!["power-saver"]);

    engine.backend.active = Some("power-saver".into());
    let report = engine.apply(&saver(), PowerState::Battery);
    assert!(report.actions.is_empty());
    assert_eq!(report.summary(), "Nothing to change");
    assert_eq!(engine.backend.selected.len(), 1);
    assert_eq!(engine.backend.read, 2);
}

#[test]
fn a_refused_power_profile_is_an_error() {
    let mut engine = engine_with_laptop(false);
    engine.session.has_profiles = true;
    engine.backend.refuse_profile = true;
    let report = engine.apply(&saver(), PowerState::Battery);
    assert_eq!(report.errors, vec!["power profile change failed: held"]);
}

#[test]
fn a_dry_run_does_not_even_read_the_power_profile() {
    let mut engine = engine_with_laptop(true);
    engine.session.has_profiles = true;
    let report = engine.apply(&saver(), PowerState::Battery);
    assert_eq!(report.actions, vec!["would select the power-saver power profile"]);
    assert_eq!(engine.backend.read, 0);
    assert!(engine.backend.selected.is_empty());
}

#[test]
fn a_display_failure_does_not_stop_the_power_profile() {
    let mut engine = engine_with_laptop(false);
    engine.session.has_profiles = true;
    engine.backend.refuse_apply = true;
    let config = config_with(Profile {
        power_profile: Some("power-saver".into()),
        outputs: vec![rule("eDP-1", "1920x1080@60.000")],
        ..Default::default()
    });
    let report = engine.apply(&config, PowerState::Battery);
    assert_eq!(
        report.errors,
        vec!["display change failed: the compositor rejected the configuration"]
    );
    assert_eq!(report.actions, vec!["selected the power-saver power profile"]);
    assert_eq!(
        report.summary(),
        "display change failed: the compositor rejected the configuration"
    );
}

#[test]
fn a_profile_without_anything_to_do_asks_for_nothing() {
    let mut engine = engine_with_laptop(false);
    let config = config_with(Profile {
        power_profile: Some("".into()),
        outputs: vec![OutputRule {
            mode: None,
            ..rule("eDP-1", "")
        }],
        ..Default::default()
    });
    let report = engine.apply(&config, PowerState::Battery);
    assert!(report.actions.is_empty() && report.warnings.is_empty() && report.errors.is_empty());
}

#[test]
fn summaries() {
    let mut report = ApplyReport::default();
    assert_eq!(report.summary(), "Nothing to change");
    report.warnings.push("careful".into());
    report.warnings.push("really".into());
    assert_eq!(report.summary(), "careful");
    report.actions.push("a".into());
    report.actions.push("b".into());
    assert_eq!(report.summary(), "a; b");
    report.errors.push("x".into());
    assert_eq!(report.summary(), "x");
    assert!(!report.succeeded());
}

use powerdisplay::config::{OutputMatch, OutputRule};
use powerdisplay::display::assign::find_setting;
use powerdisplay::display::detect::{detection_order, Detection};
use powerdisplay::display::{
    assign_rules, format_mode_id, parse_mode_id, resolve_settings, BackendKind, Mode, Output,
    OutputSetting,
};
use powerdisplay::display::detect::BackendKind::{Gnome, Kde, Wlroots, X11};
use powerdisplay::double::Double;
use powerdisplay::rate::{format_fixed, parse_rate};

fn hz(rate: f64) -> Double {
    Double { bits: rate.to_bits() }
}

fn test_output(connector: &str, modes: &[(u32, u32, f64)]) -> Output {
    Output {
        connector: connector.to_string(),
        modes: modes
            .iter()
            .map(|&(width, height, refresh)| Mode {
                id: format_mode_id(width, height, hz(refresh)),
                width,
                height,
                refresh: hz(refresh),
                preferred: false,
                current: false,
            })
            .collect(),
        enabled: true,
        ..Default::default()
    }
}

#[test]
fn mode_ids_round_trip() {
    let id = format_mode_id(2880, 1800, hz(120.0));
    assert_eq!(id, "2880x1800@120.000");
    assert_eq!(parse_mode_id(&id), Some((2880, 1800, hz(120.0))));
    assert_eq!(parse_mode_id("nonsense"), None);
}

#[test]
fn resolve_mode_prefers_an_exact_id() {
    let output = test_output("eDP-1", &[(1920, 1080, 60.0), (1920, 1080, 144.0)]);
    let mode = output.resolve_mode("1920x1080@144.000").unwrap();
    assert_eq!(mode.refresh, hz(144.0));
}

#[test]
fn resolve_mode_tolerates_refresh_rate_precision() {
    let output = test_output("eDP-1", &[(1920, 1080, 59.81), (1920, 1080, 120.0)]);
    let mode = output.resolve_mode("1920x1080@59.810825347900391").unwrap();
    assert_eq!(mode.refresh, hz(59.81));
}

#[test]
fn mode_ids_may_carry_a_variant_suffix() {
    assert_eq!(
        parse_mode_id("2880x1800@120.000+vrr"),
        Some((2880, 1800, hz(120.0)))
    );
}

#[test]
fn variant_duplicates_are_hidden_from_menus() {
    let mut output = test_output("eDP-1", &[(2880, 1800, 120.0), (2880, 1800, 60.001)]);
    let vrr = Mode {
        id: "2880x1800@120.000+vrr".into(),
        ..output.modes[0].clone()
    };
    output.modes.insert(1, vrr);

    let distinct = output.distinct_modes();
    assert_eq!(distinct.len(), 2);
    assert_eq!(distinct[0].id, "2880x1800@120.000");
}

fn called(id: &str, refresh: f64) -> Mode {
    Mode {
        id: id.into(),
        width: 2880,
        height: 1800,
        refresh: hz(refresh),
        preferred: false,
        current: false,
    }
}

fn menu(modes: Vec<Mode>) -> Vec<String> {
    let output = Output {
        modes,
        ..Default::default()
    };
    output.distinct_modes().iter().map(|m| m.id.clone()).collect()
}

#[test]
fn the_plain_twin_is_the_one_that_is_kept() {
    assert_eq!(
        menu(vec![
            called("2880x1800@120.000+vrr", 120.0),
            called("2880x1800@60.000", 60.0),
            called("2880x1800@120.000", 120.0),
            called("2880x1800@120.001", 120.001),
        ]),
        vec!["2880x1800@60.000", "2880x1800@120.000"]
    );
    assert_eq!(
        menu(vec![
            called("2880x1800@120.000+vrr", 120.0),
            called("2880x1800@120.000+other", 120.0),
        ]),
        vec!["2880x1800@120.000+vrr"]
    );
}

#[test]
fn entries_that_are_written_alike_are_one() {
    let tie = called("a@60.125", 60.125);
    let below = called("b@60.12", 60.12);
    assert_eq!(tie.refresh_label(), below.refresh_label());
    assert_eq!(menu(vec![tie, below]), vec!["a@60.125"]);
    assert_eq!(
        menu(vec![called("a@60.12", 60.12), called("b@60.13", 60.13)]).len(),
        2
    );
}

#[test]
fn a_saved_rule_survives_a_replug() {
    let mut output = test_output("DP-1", &[(1920, 1080, 60.0)]);
    output.make = "Dell".into();
    output.serial = "ABC123".into();
    let rules = vec![OutputRule {
        matcher: output.matcher(),
        mode: Some("1920x1080@60.000".into()),
    }];
    output.connector = "HDMI-A-1".into();
    let unrelated = test_output("DP-1", &[(1920, 1080, 60.0)]);
    let (settings, warnings) = resolve_settings(&rules, &[unrelated, output]);
    assert_eq!(settings.len(), 1);
    assert_eq!(settings[0].connector, "HDMI-A-1");
    assert!(warnings.is_empty());
}

#[test]
fn resolve_mode_will_not_invent_a_resolution() {
    let output = test_output("eDP-1", &[(1920, 1080, 60.0)]);
    assert!(output.resolve_mode("3840x2160@60.000").is_none());
}

#[test]
fn unmatched_rules_warn_without_dropping_the_others() {
    let outputs = vec![
        test_output("eDP-1", &[(1920, 1080, 60.0)]),
        test_output("DP-1", &[(3840, 2160, 60.0)]),
    ];
    let rules = vec![
        OutputRule {
            matcher: OutputMatch {
                connector: Some("eDP-1".into()),
                ..Default::default()
            },
            mode: Some("1920x1080@60.000".into()),
        },
        OutputRule {
            matcher: OutputMatch {
                connector: Some("HDMI-A-1".into()),
                ..Default::default()
            },
            mode: Some("1920x1080@60.000".into()),
        },
        OutputRule {
            matcher: OutputMatch {
                connector: Some("DP-1".into()),
                ..Default::default()
            },
            mode: Some("1280x720@60.000".into()),
        },
    ];

    let (settings, warnings) = resolve_settings(&rules, &outputs);
    assert_eq!(settings.len(), 1);
    assert_eq!(settings[0].connector, "eDP-1");
    assert_eq!(warnings.len(), 2);
    assert_eq!(
        warnings[0],
        "no connected display matches OutputMatch { connector: Some(\"HDMI-A-1\"), make: None, \
         model: None, serial: None }"
    );
    assert_eq!(
        warnings[0],
        format!("no connected display matches {:?}", rules[1].matcher)
    );
    assert_eq!(warnings[1], "DP-1 cannot do 1280x720@60.000; leaving it unchanged");
}

#[test]
fn one_rule_never_drives_two_displays() {
    let mut first = test_output("DP-1", &[(1920, 1080, 60.0)]);
    first.make = "Dell".into();
    let mut second = test_output("DP-2", &[(1920, 1080, 60.0)]);
    second.make = "Dell".into();
    let outputs = vec![first, second];

    let rules = vec![OutputRule {
        matcher: OutputMatch {
            make: Some("Dell".into()),
            ..Default::default()
        },
        mode: Some("1920x1080@60.000".into()),
    }];

    let assignment = assign_rules(&rules, &outputs);
    assert_eq!(
        assignment.by_output.iter().filter(|rule| rule.is_some()).count(),
        1
    );

    let (settings, _) = resolve_settings(&rules, &outputs);
    assert_eq!(settings.len(), 1);

    let window_choice = assignment
        .by_output
        .iter()
        .position(|rule| *rule == Some(0))
        .map(|index| outputs[index].connector.as_str());
    assert_eq!(window_choice, Some(settings[0].connector.as_str()));
    assert_eq!(window_choice, Some("DP-2"));
}

#[test]
fn rules_for_absent_displays_are_reported_as_unassigned() {
    let outputs = vec![test_output("eDP-1", &[(1920, 1080, 60.0)])];
    let rules = vec![
        OutputRule {
            matcher: OutputMatch {
                connector: Some("eDP-1".into()),
                ..Default::default()
            },
            mode: Some("1920x1080@60.000".into()),
        },
        OutputRule {
            matcher: OutputMatch {
                connector: Some("HDMI-A-1".into()),
                ..Default::default()
            },
            mode: Some("3840x2160@60.000".into()),
        },
    ];

    let assignment = assign_rules(&rules, &outputs);
    assert_eq!(assignment.rule_for(0, &rules), Some(&rules[0]));
    assert_eq!(assignment.unassigned(rules.len()), vec![1]);
}

#[test]
fn every_rule_is_either_bound_to_one_display_or_reported_unassigned() {
    let mut docked = test_output("DP-1", &[(3840, 2160, 60.0)]);
    docked.make = "Dell".into();
    docked.serial = "ABC123".into();
    let outputs = vec![test_output("eDP-1", &[(1920, 1080, 60.0)]), docked];

    let matcher = |connector: &str| OutputMatch {
        connector: Some(connector.into()),
        ..Default::default()
    };
    let rules = vec![
        OutputRule {
            matcher: matcher("eDP-1"),
            mode: Some("1920x1080@60.000".into()),
        },
        OutputRule {
            matcher: matcher("DP-1"),
            mode: Some("3840x2160@60.000".into()),
        },
        OutputRule {
            matcher: OutputMatch {
                serial: Some("ABC123".into()),
                ..Default::default()
            },
            mode: Some("3840x2160@60.000".into()),
        },
        OutputRule {
            matcher: matcher("HDMI-A-1"),
            mode: Some("1920x1080@60.000".into()),
        },
    ];

    let assignment = assign_rules(&rules, &outputs);
    let mut covered: Vec<usize> = assignment.by_output.iter().flatten().copied().collect();
    covered.extend(assignment.unassigned(rules.len()));
    covered.sort_unstable();

    assert_eq!(covered, (0..rules.len()).collect::<Vec<_>>());
    assert_eq!(
        assignment.warnings[0],
        "DP-1 is targeted by more than one rule; keeping the first"
    );
}

#[test]
fn rules_without_a_mode_are_skipped() {
    let outputs = vec![test_output("eDP-1", &[(1920, 1080, 60.0)])];
    let rules = vec![OutputRule {
        matcher: OutputMatch {
            connector: Some("eDP-1".into()),
            ..Default::default()
        },
        mode: None,
    }];
    let (settings, warnings) = resolve_settings(&rules, &outputs);
    assert!(settings.is_empty());
    assert!(warnings.is_empty());
}

#[test]
fn odd_mode_ids() {
    assert_eq!(parse_mode_id(" 1920 x 1080 @60"), Some((1920, 1080, hz(60.0))));
    assert_eq!(parse_mode_id(" 1920 x 1080 @"), None);
    assert_eq!(parse_mode_id(" 1920 x 1080@60."), Some((1920, 1080, hz(60.0))));
    assert_eq!(parse_mode_id("1920x1080@.5 Hz"), Some((1920, 1080, hz(0.5))));
    assert_eq!(parse_mode_id("1920x1080@1.2.3"), None);
    assert_eq!(parse_mode_id("1920x+1080@60"), Some((1920, 1080, hz(60.0))));
    assert_eq!(parse_mode_id("1920x-1080@60"), None);
    assert_eq!(parse_mode_id("4294967296x1@60"), None);
    assert_eq!(parse_mode_id("4294967295x0@0"), Some((4294967295, 0, hz(0.0))));
}

#[test]
fn rates_are_written_and_read() {
    assert_eq!(format_fixed(hz(59.94), 3), "59.940");
    assert_eq!(format_fixed(hz(59.9997), 2), "60.00");
    assert_eq!(format_fixed(hz(60.0005), 3), "60.001");
    assert_eq!(format_fixed(hz(0.0625), 3), "0.062");
    assert_eq!(format_fixed(hz(0.1875), 3), "0.188");
    assert_eq!(format_fixed(hz(-1.0), 3), "-1.000");
    assert_eq!(format_fixed(hz(-0.0), 3), "-0.000");
    assert_eq!(format_fixed(hz(1e22), 2), "10000000000000000000000.00");
    assert_eq!(format_fixed(hz(1e-300), 3), "0.000");
    assert_eq!(format_fixed(hz(f64::INFINITY), 3), "inf");
    assert_eq!(format_fixed(hz(f64::NEG_INFINITY), 2), "-inf");
    assert_eq!(format_fixed(hz(f64::NAN), 3), "NaN");
    assert_eq!(parse_rate("59.94"), Some(hz(59.94)));
    assert_eq!(parse_rate("6e1"), Some(hz(60.0)));
    assert_eq!(parse_rate("+600E-1"), Some(hz(60.0)));
    assert_eq!(parse_rate("-1.5"), Some(hz(-1.5)));
    assert_eq!(parse_rate(""), None);
    assert_eq!(parse_rate("."), None);
    assert_eq!(parse_rate("1e"), None);
    assert_eq!(parse_rate("60 Hz"), None);
    assert_eq!(parse_rate("1e300"), Some(hz(1e300)));
    assert_eq!(parse_rate("-1e309"), Some(hz(f64::NEG_INFINITY)));
    assert_eq!(parse_rate("1e-300"), Some(hz(1e-300)));
    assert_eq!(parse_rate("-1e-500"), Some(hz(-0.0)));
    assert_eq!(parse_rate("1e99999999999999999999999"), Some(hz(f64::INFINITY)));
    assert_eq!(parse_rate("0e99999999999999999999999"), Some(hz(0.0)));
    assert_eq!(parse_rate("Inf"), Some(hz(f64::INFINITY)));
    assert_eq!(parse_rate("-INFINITY"), Some(hz(f64::NEG_INFINITY)));
    assert_eq!(parse_rate("+nan"), Some(hz(f64::NAN)));
    assert_eq!(parse_rate("infinit"), None);
    assert_eq!(parse_rate("-"), None);
}

#[test]
fn what_a_mode_id_reads_as_has_that_id() {
    for rate in [0.0, 59.94, 59.810825347900391, 60.0005, 8796093022207.9995, 1e15, 1e300] {
        let id = format_mode_id(1920, 1080, hz(rate));
        let (width, height, read) = parse_mode_id(&format!("{id}+vrr")).unwrap();
        assert_eq!(format_mode_id(width, height, read), id);
        assert_eq!(parse_mode_id(&id), Some((1920, 1080, read)));
    }
    assert_eq!(parse_mode_id("1x1@143.912"), Some((1, 1, hz(143.912))));
}

#[test]
fn the_nearest_rate_wins_and_the_first_of_equals() {
    let mut output = test_output(
        "eDP-1",
        &[(1920, 1080, 50.0), (1920, 1080, 60.0), (1920, 1080, 70.0), (800, 600, 65.0)],
    );
    assert_eq!(output.resolve_mode("1920x1080@64.9").unwrap().refresh, hz(60.0));
    assert_eq!(output.resolve_mode("1920x1080@65").unwrap().refresh, hz(60.0));
    assert_eq!(output.resolve_mode("1920x1080@1").unwrap().refresh, hz(50.0));
    output.modes[2].id = "odd".into();
    assert_eq!(output.resolve_mode("odd").unwrap().refresh, hz(70.0));
    assert!(output.resolve_mode("even").is_none());
}

#[test]
fn labels_and_names() {
    let mut output = test_output("eDP-1", &[(1920, 1080, 59.94)]);
    assert_eq!(output.modes[0].resolution(), "1920x1080");
    assert_eq!(output.modes[0].refresh_label(), "59.94 Hz");
    assert_eq!(output.display_name(), "eDP-1");
    output.make = " Sharp".into();
    assert_eq!(output.display_name(), "eDP-1");
    output.model = "LQ140M1 ".into();
    assert_eq!(output.display_name(), "Sharp LQ140M1 (eDP-1)");
    output.make = "".into();
    assert_eq!(output.display_name(), "LQ140M1 (eDP-1)");
}

#[test]
fn a_display_is_described_by_its_own_matcher() {
    let mut output = test_output("eDP-1", &[]);
    output.make = " Sharp ".into();
    output.serial = "  ".into();
    let matcher = output.matcher();
    assert_eq!(matcher.connector.as_deref(), Some("eDP-1"));
    assert_eq!(matcher.make.as_deref(), Some("Sharp"));
    assert_eq!(matcher.model, None);
    assert_eq!(matcher.serial, None);
    assert_eq!(
        matcher.score(&output.connector, &output.make, &output.model, &output.serial),
        Some(3)
    );
}

#[test]
fn the_first_instruction_for_a_connector_counts() {
    let settings = vec![
        OutputSetting { connector: "A".into(), mode_id: "1".into() },
        OutputSetting { connector: "B".into(), mode_id: "2".into() },
        OutputSetting { connector: "A".into(), mode_id: "3".into() },
    ];
    assert_eq!(find_setting(&settings, "A"), Some("1"));
    assert_eq!(find_setting(&settings, "C"), None);
}

#[test]
fn backends_go_by_several_names() {
    assert_eq!(BackendKind::parse(" Mutter "), Some(BackendKind::Gnome));
    assert_eq!(BackendKind::parse("kwin"), Some(BackendKind::Kde));
    assert_eq!(BackendKind::parse("HYPRLAND"), Some(BackendKind::Wlroots));
    assert_eq!(BackendKind::parse("randr"), Some(BackendKind::X11));
    assert_eq!(BackendKind::parse("windows"), None);
    assert_eq!(BackendKind::Gnome.as_str(), "gnome");
    assert_eq!(BackendKind::X11.name(), "X11 (RandR)");
    assert!(BackendKind::Gnome.supports_persist());
    assert!(!BackendKind::Kde.supports_persist());
}

#[test]
fn the_desktops_own_backend_is_tried_first() {
    assert_eq!(detection_order("KDE"), vec![Kde, Gnome, Wlroots, X11]);
    assert_eq!(detection_order("ubuntu:GNOME"), vec![Gnome, Kde, Wlroots, X11]);
    assert_eq!(detection_order("sway"), vec![Gnome, Kde, Wlroots, X11]);
    assert_eq!(detection_order("plasma:gnome"), vec![Kde, Gnome, Wlroots, X11]);
}

#[test]
fn a_search_names_everything_that_failed() {
    let mut search = Detection::start(&None, &Some("KDE".into())).unwrap();
    while let Some(kind) = search.candidate() {
        search.failed(&format!("no {}", kind.as_str()));
    }
    assert_eq!(
        search.outcome(),
        "no usable display backend for this session; tried kde: no kde; gnome: no gnome; \
         wlroots: no wlroots; x11: no x11"
    );
}

#[test]
fn a_forced_backend_is_the_only_one_tried() {
    let mut search = Detection::start(&Some("x11".into()), &Some("KDE".into())).unwrap();
    assert_eq!(search.candidate(), Some(BackendKind::X11));
    search.failed("no display");
    assert_eq!(search.candidate(), None);
    assert_eq!(search.outcome(), "no display");
    let empty = Detection::start(&Some("".into()), &None).unwrap();
    assert_eq!(empty.candidate(), Some(BackendKind::Gnome));
    assert_eq!(
        Detection::start(&Some("win\"dows".into()), &None).unwrap_err(),
        "unknown POWERDISPLAY_BACKEND value \"win\\\"dows\""
    );
}

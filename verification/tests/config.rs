use powerdisplay::config::{
    config_changed, config_dir, config_path, config_temp_path, Config, ConfigFile, FileEventKind,
    OutputMatch, OutputRule, PowerState, Profile, APP_ID, CONFIG_VERSION,
};
use powerdisplay::paths::PathError;

fn bytes(s: &str) -> Option<Vec<u8>> {
    Some(s.as_bytes().to_vec())
}

#[test]
fn edid_match_beats_connector_match() {
    let by_serial = OutputMatch {
        serial: Some("ABC123".into()),
        ..Default::default()
    };
    let by_connector = OutputMatch {
        connector: Some("DP-1".into()),
        ..Default::default()
    };

    let serial_score = by_serial.score("HDMI-A-1", "Dell", "U2720Q", "ABC123").unwrap();
    let connector_score = by_connector.score("DP-1", "Other", "Panel", "XYZ").unwrap();
    assert!(serial_score > connector_score);
}

#[test]
fn a_single_wrong_field_rejects_the_rule() {
    let matcher = OutputMatch {
        connector: Some("eDP-1".into()),
        serial: Some("ABC123".into()),
        ..Default::default()
    };
    assert!(matcher.score("eDP-1", "", "", "DIFFERENT").is_none());
    assert_eq!(matcher.score("eDP-1", "", "", "abc123"), Some(9));
}

#[test]
fn an_empty_matcher_never_matches() {
    assert!(OutputMatch::default().score("eDP-1", "", "", "").is_none());
}

#[test]
fn a_moved_monitor_is_still_recognised() {
    let saved = OutputMatch {
        connector: Some("DP-1".into()),
        serial: Some("ABC123".into()),
        ..Default::default()
    };
    assert_eq!(saved.score("DP-1", "Dell", "U2720Q", "ABC123"), Some(9));
    assert_eq!(saved.score("HDMI-A-1", "Dell", "U2720Q", "ABC123"), Some(8));
    assert_eq!(saved.score("DP-1", "Other", "Panel", "XYZ"), None);
    assert_eq!(saved.score("DP-1", "", "", ""), None);
    let port_only = OutputMatch {
        connector: Some("DP-1".into()),
        serial: Some("  ".into()),
        ..Default::default()
    };
    assert_eq!(port_only.score("DP-1", "Dell", "U2720Q", "ABC123"), Some(1));
    assert_eq!(port_only.score("HDMI-A-1", "Dell", "U2720Q", "ABC123"), None);
}

#[test]
fn every_field_has_its_own_weight() {
    let matcher = OutputMatch {
        connector: Some("eDP-1".into()),
        make: Some(" Sharp ".into()),
        model: Some("LQ140M1".into()),
        serial: Some("0x1".into()),
    };
    assert_eq!(matcher.score("eDP-1", "sharp", "lq140m1\n", "0X1"), Some(15));
    let blank = OutputMatch {
        make: Some("   ".into()),
        model: Some("LQ140M1".into()),
        ..Default::default()
    };
    assert_eq!(blank.score("eDP-1", "Other", "LQ140M1", ""), Some(4));
}

#[test]
fn the_serial_outranks_everything_else_together() {
    let serial = OutputMatch {
        serial: Some("S".into()),
        ..Default::default()
    };
    let rest = OutputMatch {
        connector: Some("C".into()),
        make: Some("M".into()),
        model: Some("O".into()),
        ..Default::default()
    };
    assert_eq!(serial.score("C", "M", "O", "S"), Some(8));
    assert_eq!(rest.score("C", "M", "O", "S"), Some(7));
}

#[test]
fn the_defaults_act_and_apply_on_start() {
    let config = Config::default();
    assert_eq!(config.version, CONFIG_VERSION);
    assert!(config.enabled);
    assert!(config.apply_on_start);
    assert!(config.on_battery.outputs.is_empty());
    assert!(config.on_ac.power_profile.is_none());
    assert!(!config.on_ac.persist_display_config);
}

#[test]
fn each_state_has_its_own_profile() {
    let mut config = Config::default();
    config.profile_mut(PowerState::Battery).power_profile = Some("power-saver".into());
    config.profile_mut(PowerState::Ac).persist_display_config = true;
    assert_eq!(
        config.profile(PowerState::Battery).power_profile.as_deref(),
        Some("power-saver")
    );
    assert!(config.profile(PowerState::Ac).persist_display_config);
    assert!(config.on_ac.power_profile.is_none());
    assert!(!config.on_battery.persist_display_config);
}

#[test]
fn same_settings_compare_equal_down_to_the_rules() {
    let with_mode = |mode: Option<&str>| Config {
        on_ac: Profile {
            outputs: vec![OutputRule {
                matcher: OutputMatch {
                    connector: Some("eDP-1".into()),
                    ..Default::default()
                },
                mode: mode.map(str::to_string),
            }],
            ..Default::default()
        },
        ..Default::default()
    };
    let a = with_mode(Some("1920x1080@60.000"));
    assert!(a.same_as(&a.clone()));
    assert!(!a.same_as(&with_mode(Some("1920x1080@59.940"))));
    assert!(!a.same_as(&with_mode(None)));
    assert!(!a.same_as(&Config::default()));
}

#[test]
fn state_labels() {
    assert_eq!(PowerState::Battery.label(), "On battery");
    assert_eq!(PowerState::Ac.label(), "Plugged in");
}

#[test]
fn the_settings_live_below_the_config_home() {
    let path = config_path(&bytes("/xdg"), &bytes("/home/u")).unwrap();
    assert_eq!(path, b"/xdg/powerdisplay/config.toml".to_vec());
    let path = config_path(&None, &bytes("/home/u")).unwrap();
    assert_eq!(path, b"/home/u/.config/powerdisplay/config.toml".to_vec());
    let path = config_path(&bytes(""), &bytes("/home/u/")).unwrap();
    assert_eq!(path, b"/home/u/.config/powerdisplay/config.toml".to_vec());
    let dir = config_dir(&bytes("/xdg"), &None).unwrap();
    assert!(dir.ends_with(APP_ID.as_bytes()));
    let temp = config_temp_path(&bytes("/xdg"), &None).unwrap();
    assert_eq!(temp, b"/xdg/powerdisplay/config.toml.tmp".to_vec());
}

#[test]
fn without_a_home_there_is_no_path() {
    let err = config_path(&None, &None).unwrap_err();
    assert_eq!(err, PathError::NoConfigHome);
    assert_eq!(err.message(), "neither XDG_CONFIG_HOME nor HOME is set");
    assert_eq!(PathError::NoHome.message(), "HOME is not set");
    assert!(config_temp_path(&None, &None).is_err());
}

#[test]
fn a_missing_file_means_the_defaults() {
    let config = Config::load_from(ConfigFile::Missing, "/c").unwrap();
    assert!(config.same_as(&Config::default()));
    let mut off = Config::default();
    off.enabled = false;
    let read = Config::load_from(ConfigFile::Read(off), "/c").unwrap();
    assert!(!read.enabled);
    assert_eq!(
        Config::load_from(ConfigFile::Malformed("bad".into()), "/c").unwrap_err(),
        "parsing /c: bad"
    );
    assert_eq!(
        Config::load_from(ConfigFile::Unreadable("denied".into()), "/c").unwrap_err(),
        "reading /c: denied"
    );
}

#[test]
fn reading_the_file_is_no_change() {
    assert!(!config_changed(FileEventKind::Access, true));
    assert!(!config_changed(FileEventKind::Other, true));
    assert!(config_changed(FileEventKind::Create, true));
    assert!(config_changed(FileEventKind::Modify, true));
    assert!(config_changed(FileEventKind::Remove, true));
    assert!(!config_changed(FileEventKind::Modify, false));
}

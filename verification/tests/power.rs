use powerdisplay::config::PowerState;
use powerdisplay::power::profiles::{available, describe, endpoint};
use powerdisplay::power::source::{
    classify, read_state, read_supplies, ChangeFilter, SupplyFiles, SupplyReading,
};
use powerdisplay::watch::{after_wait, is_news, AfterWait, UdevSource, Wake};

fn supply(kind: &str, online: Option<bool>, status: Option<&str>) -> SupplyReading {
    SupplyReading {
        kind: kind.into(),
        online,
        status: status.map(str::to_string),
    }
}

#[test]
fn a_live_adapter_means_ac() {
    let supplies = [
        supply("Mains", Some(true), None),
        supply("Battery", None, Some("Charging")),
    ];
    assert_eq!(classify(&supplies), PowerState::Ac);
}

#[test]
fn an_idle_adapter_means_battery() {
    let supplies = [
        supply("Mains", Some(false), None),
        supply("Battery", None, Some("Discharging")),
    ];
    assert_eq!(classify(&supplies), PowerState::Battery);
}

#[test]
fn charging_over_usb_c_counts_as_ac() {
    let supplies = [
        supply("Mains", Some(false), None),
        supply("USB_PD", Some(true), None),
        supply("Battery", None, Some("Charging")),
    ];
    assert_eq!(classify(&supplies), PowerState::Ac);
}

#[test]
fn a_battery_at_its_charge_limit_is_not_treated_as_unplugged() {
    let supplies = [
        supply("Mains", Some(true), None),
        supply("Battery", None, Some("Not charging")),
    ];
    assert_eq!(classify(&supplies), PowerState::Ac);
}

#[test]
fn a_machine_without_a_battery_is_assumed_plugged_in() {
    assert_eq!(classify(&[]), PowerState::Ac);
    assert_eq!(classify(&[supply("UPS", None, None)]), PowerState::Ac);
}

#[test]
fn a_discharging_battery_wins_over_a_silent_adapter() {
    let supplies = [supply("Battery", None, Some("Discharging"))];
    assert_eq!(classify(&supplies), PowerState::Battery);
}

#[test]
fn case_does_not_matter_and_a_silent_adapter_says_nothing() {
    let supplies = [
        supply("mains", None, None),
        supply("BATTERY", None, Some("discharging")),
    ];
    assert_eq!(classify(&supplies), PowerState::Battery);
    assert_eq!(classify(&[supply("Mains", None, None)]), PowerState::Ac);
    assert_eq!(classify(&[supply("usb", Some(false), None)]), PowerState::Battery);
}

fn files(kind: Option<&str>, online: Option<&str>, status: Option<&str>) -> SupplyFiles {
    SupplyFiles {
        kind: kind.map(str::to_string),
        online: online.map(str::to_string),
        status: status.map(str::to_string),
    }
}

#[test]
fn supplies_are_read_out_of_their_files() {
    let all = vec![
        files(Some("Mains\n"), Some("0\n"), None),
        files(None, Some("1"), None),
        files(Some("Battery"), None, Some("Discharging\n")),
    ];
    let read = read_supplies(&all);
    assert_eq!(
        read,
        vec![
            supply("Mains", Some(false), None),
            supply("Battery", None, Some("Discharging")),
        ]
    );
    assert_eq!(read_state(&all), PowerState::Battery);
    assert_eq!(
        read_state(&vec![files(Some("Mains"), Some("1\n"), None)]),
        PowerState::Ac
    );
}

#[test]
fn only_a_change_is_passed_on() {
    let mut filter = ChangeFilter::new(PowerState::Ac);
    assert!(!filter.observe(PowerState::Ac));
    assert!(filter.observe(PowerState::Battery));
    assert!(!filter.observe(PowerState::Battery));
    assert!(filter.observe(PowerState::Ac));
}

#[test]
fn the_newer_bus_name_is_tried_first() {
    let first = endpoint(0).unwrap();
    assert_eq!(first.service, "org.freedesktop.UPower.PowerProfiles");
    assert_eq!(first.path, "/org/freedesktop/UPower/PowerProfiles");
    assert_eq!(first.interface, "org.freedesktop.UPower.PowerProfiles");
    let second = endpoint(1).unwrap();
    assert_eq!(second.service, "net.hadess.PowerProfiles");
    assert_eq!(second.path, "/net/hadess/PowerProfiles");
    assert!(endpoint(2).is_none());
}

#[test]
fn entries_without_a_name_are_passed_over() {
    let entries = vec![Some("power-saver".to_string()), None, Some("balanced".to_string())];
    assert_eq!(available(&entries), vec!["power-saver", "balanced"]);
}

#[test]
fn profiles_are_described() {
    assert_eq!(describe("power-saver"), "Longest battery life, lowest clocks");
    assert_eq!(describe("balanced"), "The system default");
    assert_eq!(describe("performance"), "Highest clocks, more heat and fan noise");
    assert_eq!(describe("quiet"), "Provided by the power profiles daemon");
}

#[test]
fn a_wake_without_a_match_is_not_passed_on() {
    assert!(!is_news(0, true));
    assert!(is_news(0, false));
    assert!(is_news(2, true));
    assert_eq!(after_wait(Wake::Interrupted), AfterWait::WaitAgain);
    assert_eq!(after_wait(Wake::Woken), AfterWait::Read);
    assert_eq!(after_wait(Wake::Failed), AfterWait::BackOffThenRead);
    assert_eq!(UdevSource::Kernel.name(), "Kernel");
    assert_eq!(UdevSource::Userspace.name(), "Userspace");
}

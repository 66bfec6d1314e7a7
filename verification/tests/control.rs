use powerdisplay::config::{Config, PowerState};
use powerdisplay::control::{Controller, MAX_WAIT};
use powerdisplay::events::{sleep_signal, Event, MILLISECOND, SECOND};

fn t0() -> u64 {
    1_000 * SECOND
}

fn millis(n: u64) -> u64 {
    n * MILLISECOND
}

fn secs(n: u64) -> u64 {
    n * SECOND
}

fn controller(now: u64) -> Controller {
    Controller::new(Config::default(), PowerState::Ac, now)
}

fn quiet(now: u64) -> Controller {
    Controller::new(
        Config {
            apply_on_start: false,
            ..Default::default()
        },
        PowerState::Ac,
        now,
    )
}

#[test]
fn apply_on_start_schedules_an_apply() {
    let now = t0();
    let c = controller(now);
    assert!(c.due(now + millis(1500)));
    assert!(!c.due(now + millis(500)));
}

#[test]
fn a_disabled_apply_on_start_waits_for_a_real_event() {
    let now = t0();
    let c = quiet(now);
    assert!(!c.due(now + secs(60)));
    assert!(c.wait(now).is_none());
}

#[test]
fn duplicate_power_events_do_not_restart_the_debounce() {
    let now = t0();
    let mut c = quiet(now);

    c.on_event(Event::Power(PowerState::Battery), now);
    let first_deadline = now + Event::Power(PowerState::Battery).settle_delay();

    c.on_event(Event::Power(PowerState::Battery), now + millis(200));
    assert!(c.due(first_deadline));
    assert!(!c.due(first_deadline - millis(1)));
}

#[test]
fn a_real_power_change_does_restart_the_debounce() {
    let now = t0();
    let mut c = quiet(now);

    c.on_event(Event::Power(PowerState::Battery), now);
    c.on_event(Event::Power(PowerState::Ac), now + millis(1000));

    assert!(!c.due(now + millis(1500)));
    assert!(c.due(now + millis(1000) + millis(1500)));
    assert_eq!(c.state(), PowerState::Ac);
}

#[test]
fn an_overdue_apply_is_not_starved_by_more_events() {
    let now = t0();
    let mut c = controller(now);

    let later = now + secs(11);
    c.on_event(Event::DisplaysChanged, later);
    c.on_event(Event::DisplaysChanged, later + millis(1));
    c.on_event(Event::Resumed, later + millis(2));

    assert!(c.due(later), "MAX_WAIT must cap coalescing even under a flood");
    assert!(c.take_due(later));
    assert!(!c.due(later));
}

#[test]
fn wait_is_zero_once_the_deadline_has_passed() {
    let now = t0();
    let c = controller(now);
    assert_eq!(c.wait(now + secs(30)), Some(0));
}

#[test]
fn a_failed_apply_is_tried_again() {
    let now = t0();
    let mut c = controller(now);
    assert!(c.take_due(now + secs(2)));
    assert!(!c.due(now + secs(2)));

    let delay = c.schedule_retry(now + secs(2)).unwrap();
    assert!(!c.due(now + secs(2) + delay - millis(1)));
    assert!(c.due(now + secs(2) + delay));
}

#[test]
fn retries_back_off_and_then_give_up() {
    let now = t0();
    let mut c = controller(now);

    let mut delays = Vec::new();
    while let Some(delay) = c.schedule_retry(now) {
        delays.push(delay);
        assert!(delays.len() <= 8, "schedule_retry must not loop forever");
    }

    assert!(delays.len() > 1);
    assert!(
        delays.windows(2).all(|pair| pair[0] < pair[1]),
        "each retry should wait longer: {delays:?}"
    );
    assert_eq!(delays, vec![secs(1), secs(3), secs(10), secs(30)]);
}

#[test]
fn a_new_event_restores_the_retry_budget() {
    let now = t0();
    let mut c = controller(now);
    while c.schedule_retry(now).is_some() {}

    c.on_event(Event::Power(PowerState::Battery), now);
    assert!(c.schedule_retry(now).is_some());
}

#[test]
fn a_long_retry_is_not_cut_short_by_the_coalescing_cap() {
    let now = t0();
    let mut c = controller(now);
    let mut last = 0;
    while let Some(delay) = c.schedule_retry(now) {
        last = delay;
    }
    assert!(last > MAX_WAIT);
    assert!(!c.due(now + MAX_WAIT));
    assert!(c.due(now + last));
}

#[test]
fn an_identical_config_reload_is_ignored() {
    let now = t0();
    let mut c = quiet(now);
    assert!(!c.reload_config(
        Config {
            apply_on_start: false,
            ..Default::default()
        },
        now
    ));
    assert!(!c.due(now + secs(1)));
}

#[test]
fn a_changed_config_schedules_an_apply() {
    let now = t0();
    let mut c = quiet(now);
    let mut next = c.config().clone();
    next.enabled = false;
    assert!(c.reload_config(next, now));
    assert!(c.due(now + millis(300)));
    assert!(!c.config().enabled);
}

#[test]
fn charger_events_settle_faster_than_hotplug() {
    assert!(Event::Power(PowerState::Ac).settle_delay() < Event::DisplaysChanged.settle_delay());
    assert!(Event::ConfigChanged.settle_delay() < Event::Power(PowerState::Ac).settle_delay());
}

#[test]
fn a_reading_that_an_apply_has_used_is_no_news() {
    let now = t0();
    let mut c = controller(now);
    assert!(c.take_due(now + secs(2)));
    c.applied(PowerState::Battery);
    assert_eq!(c.state(), PowerState::Battery);
    c.on_event(Event::Power(PowerState::Battery), now + secs(3));
    assert!(c.wait(now + secs(3)).is_none());
}

#[test]
fn events_only_prolong_the_wait() {
    let now = t0();
    let mut c = quiet(now);
    c.on_event(Event::Resumed, now);
    assert_eq!(c.wait(now), Some(millis(2500)));
    c.on_event(Event::ConfigChanged, now + millis(100));
    assert_eq!(c.wait(now + millis(100)), Some(millis(2400)));
    c.on_event(Event::DisplaysChanged, now + millis(1000));
    assert_eq!(c.wait(now + millis(1000)), Some(millis(2000)));
}

#[test]
fn only_the_end_of_a_sleep_counts() {
    assert_eq!(sleep_signal(true), None);
    assert_eq!(sleep_signal(false), Some(Event::Resumed));
}

#[test]
fn an_event_does_not_push_a_retry_back() {
    let now = t0();
    let mut c = quiet(now);
    assert_eq!(c.schedule_retry(now), Some(secs(1)));
    c.on_event(Event::Resumed, now + millis(900));
    assert!(!c.due(now + secs(1) - 1));
    assert!(c.due(now + secs(1)));
    assert_eq!(c.wait(now + millis(900)), Some(millis(100)));
}

use powerdisplay::display::wlroots::{
    bind_version, conclude, count_dispatch, is_skipped, mode_id, plan, refresh_hz, HeadEvent,
    HeadRequest, ManagerEvent, ModeEvent, Outcome, State, MAX_DISPATCHES,
};
use powerdisplay::display::{parse_mode_id, OutputSetting};
use powerdisplay::double::Double;

#[test]
fn millihertz_becomes_a_matching_mode_id() {
    assert_eq!(refresh_hz(143_912), number(143.912));
    assert_eq!(mode_id(2560, 1440, 143_912), "2560x1440@143.912");
    assert_eq!(mode_id(1920, 1080, 60_000), "1920x1080@60.000");
}

#[test]
fn a_missing_refresh_rate_does_not_produce_a_broken_id() {
    assert_eq!(mode_id(1920, 1080, 0), "1920x1080@0.000");
    assert_eq!(parse_mode_id("1920x1080@0.000"), Some((1920, 1080, number(0.0))));
}

fn number(n: f64) -> Double {
    Double { bits: n.to_bits() }
}

fn described() -> State {
    let mut state = State::default();
    state.on_manager(ManagerEvent::Head(1));
    state.on_head(1, HeadEvent::Name("eDP-1".into()));
    state.on_head(1, HeadEvent::Make("Sharp".into()));
    state.on_head(1, HeadEvent::Model("LQ".into()));
    state.on_head(1, HeadEvent::SerialNumber("7".into()));
    state.on_head(1, HeadEvent::Enabled(1));
    state.on_head(1, HeadEvent::Mode(10));
    state.on_mode(10, ModeEvent::Size(2560, 1440));
    state.on_mode(10, ModeEvent::Refresh(143_912));
    state.on_head(1, HeadEvent::Mode(11));
    state.on_mode(11, ModeEvent::Size(1920, 1080));
    state.on_mode(11, ModeEvent::Refresh(60_000));
    state.on_mode(11, ModeEvent::Preferred);
    state.on_head(1, HeadEvent::CurrentMode(10));
    state.on_head(1, HeadEvent::Position(5, -6));
    state.on_head(1, HeadEvent::Transform(Some(1)));
    state.on_head(1, HeadEvent::Scale(number(2.0)));
    state.on_manager(ManagerEvent::Head(2));
    state.on_head(2, HeadEvent::Name("DP-1".into()));
    state.on_head(2, HeadEvent::Mode(20));
    state.on_manager(ManagerEvent::Done(77));
    state
}

fn setting(connector: &str, mode_id: &str) -> OutputSetting {
    OutputSetting {
        connector: connector.into(),
        mode_id: mode_id.into(),
    }
}

#[test]
fn heads_become_outputs() {
    let state = described();
    assert!(state.done);
    assert_eq!(state.serial, 77);
    let outputs = state.outputs();
    assert_eq!(outputs.len(), 2);
    assert_eq!(outputs[0].connector, "eDP-1");
    assert_eq!(outputs[0].make, "Sharp");
    assert_eq!(outputs[0].model, "LQ");
    assert_eq!(outputs[0].serial, "7");
    assert!(outputs[0].enabled);
    assert_eq!(outputs[0].current_mode.as_deref(), Some("2560x1440@143.912"));
    assert!(outputs[0].modes[0].current);
    assert!(!outputs[0].modes[0].preferred);
    assert!(outputs[0].modes[1].preferred);
    assert!(!outputs[1].enabled);
    assert_eq!(outputs[1].current_mode, None);
    assert_eq!(outputs[1].modes[0].id, "0x0@0.000");
}

#[test]
fn a_plan_describes_every_head() {
    let state = described();
    let wanted = vec![setting("eDP-1", "1920x1080@60.000"), setting("DP-1", "0x0@1.000")];
    let planned = plan(&state, &wanted).unwrap();
    assert_eq!(planned.len(), 2);
    assert_eq!(
        planned[0].request(),
        HeadRequest::Enable {
            head: 1,
            mode: Some(11),
            x: 5,
            y: -6,
            transform: Some(1),
            scale: Some(number(2.0)),
        }
    );
    assert_eq!(planned[1].request(), HeadRequest::Disable(2));
    assert!(is_skipped(&state.heads[1], &wanted));
    assert!(!is_skipped(&state.heads[0], &wanted));
}

#[test]
fn a_head_that_is_not_asked_for_keeps_its_mode() {
    let state = described();
    let planned = plan(&state, &[]).unwrap();
    assert_eq!(planned[0].mode, Some(10));
    assert_eq!(planned[1].mode, None);
}

#[test]
fn a_mode_that_is_not_offered_is_an_error() {
    let state = described();
    assert_eq!(
        plan(&state, &[setting("eDP-1", "1x1@1.000")]).unwrap_err(),
        "eDP-1 does not offer mode 1x1@1.000"
    );
}

#[test]
fn what_is_gone_is_forgotten() {
    let mut state = described();
    state.on_mode(10, ModeEvent::Finished);
    assert_eq!(state.heads[0].modes.len(), 1);
    assert_eq!(state.outputs()[0].current_mode, None);
    state.on_mode(10, ModeEvent::Refresh(1));
    state.on_head(1, HeadEvent::Finished);
    assert_eq!(state.heads.len(), 1);
    assert_eq!(state.heads[0].name, "DP-1");
    state.on_head(1, HeadEvent::Name("ghost".into()));
    assert_eq!(state.heads[0].name, "DP-1");
    state.on_head(2, HeadEvent::Other);
    state.on_manager(ManagerEvent::Other);
    assert_eq!(state.heads.len(), 1);
}

#[test]
fn answers_are_put_into_words() {
    let mut state = described();
    assert_eq!(conclude(state.outcome).unwrap_err(), "the compositor never answered");
    state.on_configuration(Outcome::Failed);
    assert_eq!(
        conclude(state.outcome).unwrap_err(),
        "the compositor rejected the configuration"
    );
    state.on_configuration(Outcome::Cancelled);
    assert_eq!(
        conclude(state.outcome).unwrap_err(),
        "the display setup changed while applying; try again"
    );
    state.on_configuration(Outcome::Succeeded);
    assert!(conclude(state.outcome).is_ok());
}

#[test]
fn patience_has_an_end() {
    let mut dispatches = 0;
    for _ in 0..MAX_DISPATCHES {
        dispatches = count_dispatch(dispatches).unwrap();
    }
    assert_eq!(
        count_dispatch(dispatches).unwrap_err(),
        "the compositor stopped responding"
    );
    assert_eq!(bind_version(2), 2);
    assert_eq!(bind_version(9), 4);
}

use powerdisplay::display::gnome::{
    outputs, pick_scale, prop_bool, prop_u32, ChosenMode, CurrentState, LogicalMonitorInfo,
    ModeInfo, MonitorInfo, PlannedLogicalMonitor, Property, PropertyValue, METHOD_PERSISTENT,
    METHOD_TEMPORARY,
};
use powerdisplay::display::gnome_plan::{plan_change, skipped_displays};
use powerdisplay::display::gnome_row::{build_config, repack, row_fits};
use powerdisplay::display::OutputSetting;
use powerdisplay::double::Double;

fn scale(s: f64) -> Double {
    Double { bits: s.to_bits() }
}

fn scales(list: &[f64]) -> Vec<Double> {
    list.iter().map(|s| scale(*s)).collect()
}

fn planned(x: i32, width: u32, height: u32, s: f64) -> PlannedLogicalMonitor {
    PlannedLogicalMonitor {
        x,
        y: 0,
        scale: scale(s),
        transform: 0,
        primary: false,
        monitors: vec![ChosenMode {
            connector: "test".into(),
            id: "test".into(),
            width,
            height,
            supported_scales: scales(&[1.0, 2.0]),
        }],
    }
}

#[test]
fn pick_scale_keeps_a_supported_value() {
    assert_eq!(pick_scale(scale(2.0), &[scales(&[1.0, 1.5, 2.0])]), scale(2.0));
}

#[test]
fn pick_scale_snaps_to_the_nearest_supported_value() {
    assert_eq!(pick_scale(scale(1.75), &[scales(&[1.0, 1.5, 3.0])]), scale(1.5));
}

#[test]
fn pick_scale_requires_agreement_between_monitors() {
    assert_eq!(
        pick_scale(scale(2.0), &[scales(&[1.0, 2.0]), scales(&[1.0])]),
        scale(1.0)
    );
}

#[test]
fn pick_scale_falls_back_when_nothing_is_shared() {
    assert_eq!(
        pick_scale(scale(2.0), &[scales(&[2.0]), scales(&[3.0])]),
        scale(1.0)
    );
}

#[test]
fn repack_closes_the_gap_left_by_a_smaller_mode() {
    let mut plan = vec![planned(0, 1920, 1080, 1.0), planned(3840, 2560, 1440, 1.0)];
    repack(&mut plan, true);
    assert_eq!(plan[0].x, 0);
    assert_eq!(plan[1].x, 1920);
}

#[test]
fn repack_uses_logical_sizes_when_scaling_is_logical() {
    let mut plan = vec![planned(0, 3840, 2160, 2.0), planned(9999, 1920, 1080, 1.0)];
    repack(&mut plan, true);
    assert_eq!(plan[1].x, 1920);
}

#[test]
fn rotated_monitors_occupy_swapped_dimensions() {
    let mut monitor = planned(0, 1920, 1080, 1.0);
    monitor.transform = 1;
    assert_eq!(monitor.size(false), (1080, 1920));
}

#[test]
fn a_scale_within_a_thousandth_is_the_same() {
    assert_eq!(
        pick_scale(scale(1.0005), &[scales(&[1.0, 2.0])]),
        scale(1.0005)
    );
    assert_eq!(pick_scale(scale(1.002), &[scales(&[1.0, 2.0])]), scale(1.0));
    assert_eq!(pick_scale(scale(1.25), &[]), scale(1.25));
    assert_eq!(pick_scale(scale(1.5), &[scales(&[1.0, 2.0])]), scale(1.0));
    let odd = [scales(&[f64::NAN, f64::INFINITY])];
    assert_eq!(pick_scale(scale(1.5), &odd), scale(f64::INFINITY));
    assert_eq!(pick_scale(scale(f64::INFINITY), &odd), scale(f64::NAN));
}

#[test]
fn repack_keeps_the_order_of_the_row() {
    let mut plan = vec![
        planned(500, 100, 50, 1.0),
        planned(-20, 200, 50, 1.0),
        planned(500, 300, 50, 1.0),
    ];
    plan[0].y = 9;
    plan[2].y = 3;
    assert!(row_fits(&plan, false));
    repack(&mut plan, false);
    assert_eq!(plan[1].x, 0);
    assert_eq!(plan[2].x, 200);
    assert_eq!(plan[0].x, 500);
    assert!(plan.iter().all(|p| p.y == 0));
    let wide = vec![planned(0, 2_000_000_000, 1, 1.0), planned(1, 2_000_000_000, 1, 1.0)];
    assert!(!row_fits(&wide, false));
}

#[test]
fn scaled_sizes_are_rounded() {
    let mut monitor = planned(0, 1921, 1080, 1.5);
    assert_eq!(monitor.size(true), (1281, 720));
    assert_eq!(monitor.size(false), (1921, 1080));
    assert_eq!(planned(0, 1364, 1, 1.6).size(true), (853, 1));
    assert_eq!(planned(0, 1364, 1, -1.6).size(true), (1364, 1));
    assert_eq!(planned(0, 1364, 1, f64::NAN).size(true), (1364, 1));
    assert_eq!(planned(0, 1364, 1, f64::INFINITY).size(true), (0, 0));
    assert_eq!(planned(0, 1364, 0, 1e-300).size(true), (i32::MAX, 0));
    monitor.monitors.clear();
    assert_eq!(monitor.size(true), (0, 0));
}

fn flag(name: &str, value: bool) -> Property {
    Property {
        name: name.into(),
        value: PropertyValue::Bool(value),
    }
}

fn number(name: &str, value: u32) -> Property {
    Property {
        name: name.into(),
        value: PropertyValue::U32(value),
    }
}

fn mode(id: &str, width: i32, height: i32, current: bool, list: &[f64]) -> ModeInfo {
    ModeInfo {
        id: id.into(),
        width,
        height,
        refresh: scale(60.0),
        supported_scales: scales(list),
        properties: if current { vec![flag("is-current", true)] } else { vec![] },
    }
}

fn monitor(connector: &str, modes: Vec<ModeInfo>) -> MonitorInfo {
    MonitorInfo {
        connector: connector.into(),
        vendor: "SDC".into(),
        product: "0x419d".into(),
        serial: "0x0".into(),
        modes,
    }
}

fn logical(x: i32, s: f64, primary: bool, connectors: &[&str]) -> LogicalMonitorInfo {
    LogicalMonitorInfo {
        x,
        y: 0,
        scale: scale(s),
        transform: 0,
        primary,
        connectors: connectors.iter().map(|c| c.to_string()).collect(),
    }
}

fn state(properties: Vec<Property>) -> CurrentState {
    CurrentState {
        monitors: vec![
            monitor(
                "eDP-1",
                vec![
                    mode("2880x1800@120.000", 2880, 1800, true, &[1.0, 1.5, 2.0]),
                    mode("1920x1200@60.000", 1920, 1200, false, &[1.0, 1.25]),
                ],
            ),
            monitor("DP-1", vec![mode("1920x1080@60.000", 1920, 1080, true, &[1.0])]),
            monitor("HDMI-1", vec![mode("800x600@60.000", 800, 600, false, &[1.0])]),
        ],
        logical_monitors: vec![
            logical(0, 2.0, true, &["eDP-1"]),
            logical(1440, 1.0, false, &["DP-1"]),
        ],
        properties,
    }
}

fn setting(connector: &str, mode_id: &str) -> OutputSetting {
    OutputSetting {
        connector: connector.into(),
        mode_id: mode_id.into(),
    }
}

#[test]
fn monitors_become_outputs() {
    let mut st = state(vec![]);
    st.monitors[0].modes[1].properties.push(flag("is-preferred", true));
    st.monitors[0].modes[1].width = -4;
    let shown = outputs(&st);
    assert_eq!(shown.len(), 3);
    assert_eq!(shown[0].connector, "eDP-1");
    assert_eq!(shown[0].make, "SDC");
    assert_eq!(shown[0].model, "0x419d");
    assert!(shown[0].enabled);
    assert!(!shown[2].enabled);
    assert_eq!(shown[0].current_mode.as_deref(), Some("2880x1800@120.000"));
    assert_eq!(shown[2].current_mode, None);
    assert!(shown[0].modes[0].current);
    assert!(shown[0].modes[1].preferred);
    assert_eq!(shown[0].modes[1].width, 0);
}

#[test]
fn a_change_swaps_only_the_mode() {
    let change = plan_change(&state(vec![]), &[setting("eDP-1", "1920x1200@60.000")], false).unwrap();
    assert_eq!(change.method, METHOD_TEMPORARY);
    assert_eq!(change.layout_mode, None);
    assert!(change.logical_layout);
    let config = build_config(&change.plan);
    assert_eq!(config.len(), 2);
    assert_eq!(config[0].monitors[0].mode_id, "1920x1200@60.000");
    assert_eq!(config[0].scale, scale(1.25));
    assert!(config[0].primary);
    assert_eq!(config[1].x, 1440);
    assert_eq!(config[1].monitors[0].connector, "DP-1");
    assert_eq!(config[1].monitors[0].mode_id, "1920x1080@60.000");
    assert_eq!(config[1].scale, scale(1.0));
}

#[test]
fn one_scale_for_all_where_the_desktop_wants_that() {
    let st = state(vec![flag("global-scale-required", true)]);
    let change = plan_change(&st, &[], true).unwrap();
    assert_eq!(change.method, METHOD_PERSISTENT);
    assert!(change.plan.iter().all(|p| p.scale == scale(1.0)));
}

#[test]
fn the_layout_mode_is_sent_where_it_may_be() {
    let st = state(vec![
        number("layout-mode", 2),
        flag("supports-changing-layout-mode", true),
    ]);
    let change = plan_change(&st, &[], false).unwrap();
    assert_eq!(change.layout_mode, Some(2));
    assert!(!change.logical_layout);
    let st = state(vec![number("layout-mode", 1)]);
    let change = plan_change(&st, &[], false).unwrap();
    assert_eq!(change.layout_mode, None);
    assert!(change.logical_layout);
}

#[test]
fn what_stands_in_the_way_of_a_change() {
    let refused = state(vec![flag("apply-monitors-config-allowed", false)]);
    assert_eq!(
        plan_change(&refused, &[], false).unwrap_err(),
        "the compositor is currently refusing display configuration changes"
    );
    let mut empty = state(vec![]);
    empty.logical_monitors.clear();
    assert_eq!(
        plan_change(&empty, &[], false).unwrap_err(),
        "Mutter reports no active monitors"
    );
    let mut unlisted = state(vec![]);
    unlisted.logical_monitors.push(logical(0, 1.0, false, &["VGA-1"]));
    assert_eq!(
        plan_change(&unlisted, &[], false).unwrap_err(),
        "Mutter listed VGA-1 without any modes"
    );
    assert_eq!(
        plan_change(&state(vec![]), &[setting("DP-1", "1x1@1.000")], false).unwrap_err(),
        "DP-1 does not offer mode 1x1@1.000"
    );
    let mut dark = state(vec![]);
    dark.monitors[1].modes[0].properties.clear();
    assert_eq!(
        plan_change(&dark, &[], false).unwrap_err(),
        "DP-1 has no current mode"
    );
}

#[test]
fn a_display_outside_the_layout_is_skipped() {
    let st = state(vec![]);
    let wanted = [setting("HDMI-1", "800x600@60.000"), setting("eDP-1", "1920x1200@60.000")];
    assert_eq!(skipped_displays(&st, &wanted), vec!["HDMI-1"]);
    assert!(plan_change(&st, &wanted, false).is_ok());
    let refused = state(vec![flag("apply-monitors-config-allowed", false)]);
    assert!(skipped_displays(&refused, &wanted).is_empty());
    let mut dark = state(vec![]);
    dark.logical_monitors.clear();
    assert!(skipped_displays(&dark, &wanted).is_empty());
}

#[test]
fn a_refused_layout_is_repacked_once() {
    let st = state(vec![]);
    let mut change = plan_change(&st, &[setting("eDP-1", "1920x1200@60.000")], false).unwrap();
    assert!(change.retry());
    assert_eq!(change.plan[0].x, 0);
    assert_eq!(change.plan[1].x, 1536);
    let mut single = state(vec![]);
    single.logical_monitors.pop();
    let mut change = plan_change(&single, &[], false).unwrap();
    assert!(!change.retry());
}

#[test]
fn properties_are_looked_up_by_name_and_type() {
    let props = vec![flag("a", true), number("b", 3), Property {
        name: "c".into(),
        value: PropertyValue::Other,
    }];
    assert_eq!(prop_bool(&props, "a"), Some(true));
    assert_eq!(prop_bool(&props, "b"), None);
    assert_eq!(prop_u32(&props, "b"), Some(3));
    assert_eq!(prop_u32(&props, "c"), None);
    assert_eq!(prop_u32(&props, "d"), None);
}

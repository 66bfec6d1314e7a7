use powerdisplay::display::kde::{
    arguments, connected_outputs, step, tool, tool_failure, KdeMode, KdeOutput, KdeSize, KdeStep,
};
use powerdisplay::display::{Output, OutputSetting};
use powerdisplay::double::Double;
use serde_json::Value;

const SAMPLE: &str = r#"{
  "outputs": [
    {
      "id": 79,
      "name": "eDP-1",
      "connected": true,
      "enabled": true,
      "currentModeId": "72",
      "vendor": "Sharp",
      "model": "LQ140M1",
      "serialNumber": "0x00000000",
      "modes": [
        { "id": "72", "name": "2880x1800@90", "refreshRate": 90.0009,
          "size": { "width": 2880, "height": 1800 } },
        { "id": "73", "name": "1920x1080@60", "refreshRate": 59.9997,
          "size": { "width": 1920, "height": 1080 } }
      ]
    },
    {
      "id": 80,
      "name": "DP-2",
      "connected": false,
      "enabled": false,
      "modes": []
    }
  ]
}"#;

fn hz(rate: f64) -> Double {
    Double { bits: rate.to_bits() }
}

fn text(value: &Value, key: &str) -> Option<String> {
    value.get(key).and_then(Value::as_str).map(str::to_string)
}

fn mode(value: &Value) -> KdeMode {
    KdeMode {
        id: text(value, "id").unwrap(),
        name: text(value, "name"),
        refresh_rate: value.get("refreshRate").and_then(Value::as_f64).map(hz),
        size: value.get("size").map(|size| KdeSize {
            width: size["width"].as_u64().unwrap() as u32,
            height: size["height"].as_u64().unwrap() as u32,
        }),
    }
}

fn parse_outputs(json: &str) -> Vec<KdeOutput> {
    let reply: Value = serde_json::from_str(json).unwrap();
    reply["outputs"]
        .as_array()
        .unwrap()
        .iter()
        .map(|o| KdeOutput {
            name: text(o, "name").unwrap(),
            connected: o.get("connected").and_then(Value::as_bool).unwrap_or(true),
            enabled: o.get("enabled").and_then(Value::as_bool).unwrap_or(false),
            current_mode_id: text(o, "currentModeId"),
            modes: o["modes"].as_array().unwrap().iter().map(mode).collect(),
            vendor: text(o, "vendor"),
            model: text(o, "model"),
            serial: text(o, "serialNumber"),
        })
        .collect()
}

#[test]
fn disconnected_outputs_are_dropped() {
    let backend_outputs: Vec<Output> = parse_outputs(SAMPLE)
        .into_iter()
        .filter(|o| o.connected)
        .map(KdeOutput::into_output)
        .collect();
    assert_eq!(backend_outputs.len(), 1);
    assert_eq!(backend_outputs[0].connector, "eDP-1");

    let connected = connected_outputs(&parse_outputs(SAMPLE));
    assert_eq!(connected.len(), 1);
    assert_eq!(connected[0].connector, "eDP-1");
}

#[test]
fn modes_and_edid_details_are_carried_over() {
    let output = parse_outputs(SAMPLE).into_iter().next().unwrap().into_output();

    assert_eq!(output.make, "Sharp");
    assert_eq!(output.model, "LQ140M1");
    assert_eq!(output.modes.len(), 2);
    assert_eq!(output.current_mode.as_deref(), Some("2880x1800@90.001"));
    assert_eq!(output.modes[1].id, "1920x1080@60.000");
}

#[test]
fn geometry_falls_back_to_the_mode_name() {
    let mode = KdeMode {
        id: "3".into(),
        name: Some("1280x720@59.94".into()),
        refresh_rate: None,
        size: None,
    };
    assert_eq!(mode.geometry(), Some((1280, 720, hz(59.94))));
}

#[test]
fn a_config_written_elsewhere_still_resolves() {
    let output = parse_outputs(SAMPLE).into_iter().next().unwrap().into_output();

    let mode = output.resolve_mode("1920x1080@59.999996185302734").unwrap();
    assert_eq!(mode.id, "1920x1080@60.000");
}

fn bare(id: &str, name: Option<&str>) -> KdeMode {
    KdeMode {
        id: id.into(),
        name: name.map(str::to_string),
        refresh_rate: None,
        size: None,
    }
}

#[test]
fn a_mode_without_a_geometry_keeps_its_own_id() {
    assert_eq!(bare("9", None).geometry(), None);
    assert_eq!(bare("9", None).mode_id(), "9");
    assert_eq!(bare("9", Some("1280x720")).geometry(), None);
    assert_eq!(bare("9", Some("wide@60")).mode_id(), "9");
    assert_eq!(bare("9", Some(" 1280 x720 @ 60 ")).mode_id(), "1280x720@60.000");
    assert_eq!(bare("9", Some("1280x720@inf")).geometry(), Some((1280, 720, hz(f64::INFINITY))));
    assert_eq!(bare("9", Some("1280x720@inf")).mode_id(), "1280x720@inf");
    assert_eq!(bare("9", Some("1280x720@nan")).mode_id(), "1280x720@NaN");
    let sized = KdeMode {
        size: Some(KdeSize { width: 1, height: 2 }),
        ..bare("9", Some("x@50"))
    };
    assert_eq!(sized.geometry(), Some((1, 2, hz(50.0))));
}

#[test]
fn an_output_without_details_is_still_an_output() {
    let output = KdeOutput {
        name: "DP-2".into(),
        connected: true,
        enabled: false,
        current_mode_id: Some("nope".into()),
        modes: vec![bare("9", None)],
        vendor: None,
        model: None,
        serial: None,
    }
    .into_output();
    assert_eq!(output.make, "");
    assert_eq!(output.current_mode, None);
    assert!(output.modes.is_empty());
    assert!(!output.enabled);
}

fn setting(connector: &str, mode_id: &str) -> OutputSetting {
    OutputSetting {
        connector: connector.into(),
        mode_id: mode_id.into(),
    }
}

#[test]
fn instructions_become_arguments() {
    let outputs = parse_outputs(SAMPLE);
    let wanted = [
        setting("eDP-1", "1920x1080@60.000"),
        setting("HDMI-1", "1920x1080@60.000"),
        setting("DP-2", "1920x1080@60.000"),
    ];
    assert_eq!(arguments(&outputs, &wanted).unwrap(), vec!["output.eDP-1.mode.73"]);
    assert!(matches!(step(&outputs, &wanted[0]), KdeStep::Argument(_)));
    assert!(matches!(step(&outputs, &wanted[1]), KdeStep::NoDisplay));
    assert!(matches!(step(&outputs, &wanted[2]), KdeStep::NoMode));
    assert_eq!(
        arguments(&outputs, &wanted[1..]).unwrap_err(),
        "none of the requested modes are available"
    );
}

#[test]
fn the_tool_runs_on_the_host() {
    assert_eq!(tool(false), vec!["kscreen-doctor"]);
    assert_eq!(tool(true), vec!["flatpak-spawn", "--host", "kscreen-doctor"]);
    assert_eq!(
        tool_failure(&vec!["-j".to_string()], " no screens\n"),
        "kscreen-doctor -j failed: no screens"
    );
}

use powerdisplay::display::x11::{
    mode_id, outputs, parse_edid, refresh_of, rotated, ModeInfo, OutputInfo, DOUBLE_SCAN,
    INTERLACE, ROTATE270, ROTATE90,
};
use powerdisplay::display::x11_plan::{
    find_target, find_targets, is_untouched, refusal, requests, screen_size_after, xrandr_args, millimetres, xrandr_failure,
    Change, Crtc, CrtcInfo, Request,
};
use powerdisplay::display::OutputSetting;
use powerdisplay::double::quotient;
use x11rb::protocol::randr::{ModeFlag, Rotation};

fn sample_edid() -> Vec<u8> {
    let mut data = vec![0x00, 0xff, 0xff, 0xff, 0xff, 0xff, 0xff, 0x00];
    data.extend_from_slice(&[0x4c, 0x83]);
    data.extend_from_slice(&0x419du16.to_le_bytes());
    data.extend_from_slice(&0u32.to_le_bytes());
    data.resize(128, 0);
    data
}

#[test]
fn edid_identity_matches_the_shape_mutter_reports() {
    let (make, model, serial) = parse_edid(&sample_edid()).unwrap();
    assert_eq!(make, "SDC");
    assert_eq!(model, "0x419d");
    assert_eq!(serial, "0x00000000");
}

#[test]
fn a_missing_or_corrupt_edid_is_not_fatal() {
    assert!(parse_edid(&[]).is_none());
    assert!(parse_edid(&[0u8; 128]).is_none());
}

#[test]
fn refresh_rate_comes_from_the_mode_timings() {
    let mode = ModeInfo {
        id: 1,
        width: 1920,
        height: 1080,
        dot_clock: 148_500_000,
        htotal: 2200,
        vtotal: 1125,
        mode_flags: u32::from(ModeFlag::default()),
    };

    assert!((f64::from_bits(refresh_of(&mode).bits) - 60.0).abs() < 0.001);
    assert_eq!(mode_id(&mode), "1920x1080@60.000");
}

#[test]
fn interlaced_modes_report_their_field_rate() {
    let mode = ModeInfo {
        id: 2,
        width: 1920,
        height: 1080,
        dot_clock: 74_250_000,
        htotal: 2200,
        vtotal: 1125,
        mode_flags: u32::from(ModeFlag::INTERLACE),
    };

    assert!((f64::from_bits(refresh_of(&mode).bits) - 60.0).abs() < 0.001);
}

#[test]
fn rotation_swaps_the_occupied_area() {
    assert_eq!(rotated(1920, 1080, u16::from(Rotation::ROTATE0)), (1920, 1080));
    assert_eq!(rotated(1920, 1080, u16::from(Rotation::ROTATE90)), (1080, 1920));
}

#[test]
fn the_bits_are_those_of_the_protocol() {
    assert_eq!(INTERLACE, u32::from(ModeFlag::INTERLACE));
    assert_eq!(DOUBLE_SCAN, u32::from(ModeFlag::DOUBLE_SCAN));
    assert_eq!(ROTATE90, u16::from(Rotation::ROTATE90));
    assert_eq!(ROTATE270, u16::from(Rotation::ROTATE270));
}

fn timed(id: u32, width: u16, height: u16, flags: u32) -> ModeInfo {
    ModeInfo {
        id,
        width,
        height,
        dot_clock: 60_000_000,
        htotal: 1000,
        vtotal: 1000,
        mode_flags: flags,
    }
}

#[test]
fn double_scan_halves_the_rate() {
    assert_eq!(refresh_of(&timed(1, 1, 1, 0)), quotient(60, 1));
    assert_eq!(refresh_of(&timed(1, 1, 1, DOUBLE_SCAN)), quotient(30, 1));
    assert_eq!(refresh_of(&timed(1, 1, 1, INTERLACE)), quotient(120, 1));
    assert_eq!(refresh_of(&timed(1, 1, 1, INTERLACE | DOUBLE_SCAN | 1)), quotient(60, 1));
    let mut blank = timed(1, 1, 1, 0);
    blank.vtotal = 0;
    assert_eq!(refresh_of(&blank), quotient(0, 1));
    let mut odd = timed(1, 800, 600, 0);
    odd.dot_clock = 60_000_500;
    assert_eq!(mode_id(&odd), "800x600@60.001");
}

#[test]
fn lengths_are_those_of_the_assumed_dpi() {
    for pixels in [0u16, 1, 2, 96, 1080, 1920, 3840, 12345, 65535] {
        assert_eq!(millimetres(pixels), (f64::from(pixels) * 25.4 / 96.0).round() as u32);
    }
    assert_eq!(millimetres(1920), 508);
}

#[test]
fn other_rotations() {
    let mirrored = u16::from(Rotation::ROTATE270) | u16::from(Rotation::REFLECT_X);
    assert_eq!(rotated(3, 4, mirrored), (4, 3));
    assert_eq!(rotated(3, 4, u16::from(Rotation::ROTATE180)), (3, 4));
}

#[test]
fn a_letter_that_is_none_spoils_an_edid() {
    let mut data = sample_edid();
    data[8] = 0;
    assert!(parse_edid(&data).is_none());
    let mut data = sample_edid();
    data[12] = 0x78;
    data[13] = 0x56;
    data[14] = 0x34;
    data[15] = 0xf2;
    assert_eq!(parse_edid(&data).unwrap().2, "0xf2345678");
    assert!(parse_edid(&data[..15]).is_none());
}

fn info(name: &str, connected: bool, crtc: u32, crtc_mode: Option<u32>) -> OutputInfo {
    OutputInfo {
        name: name.into(),
        connected,
        crtc,
        crtc_mode,
        modes: vec![1, 99, 2],
        num_preferred: 1,
        edid: Some(sample_edid()),
    }
}

fn table() -> Vec<ModeInfo> {
    vec![timed(1, 1000, 800, 0), timed(2, 10, 10, 0), timed(2, 640, 480, 0)]
}

fn setting(connector: &str, mode_id: &str) -> OutputSetting {
    OutputSetting {
        connector: connector.into(),
        mode_id: mode_id.into(),
    }
}

#[test]
fn connectors_become_outputs() {
    let mut plain = info("DP-1", true, 0, None);
    plain.edid = None;
    let infos = vec![info("eDP-1", true, 7, Some(2)), info("HDMI-1", false, 0, None), plain];
    let shown = outputs(&infos, &table());
    assert_eq!(shown.len(), 2);
    assert_eq!(shown[0].connector, "eDP-1");
    assert_eq!(shown[0].make, "SDC");
    assert_eq!(shown[0].modes.len(), 2);
    assert_eq!(shown[0].modes[0].id, "1000x800@60.000");
    assert!(shown[0].modes[0].preferred);
    assert!(!shown[0].modes[0].current);
    assert_eq!(shown[0].modes[1].width, 640);
    assert!(shown[0].modes[1].current);
    assert_eq!(shown[0].current_mode.as_deref(), Some("640x480@60.000"));
    assert!(shown[0].enabled);
    assert_eq!(shown[1].make, "");
    assert_eq!(shown[1].current_mode, None);
    assert!(!shown[1].enabled);
}

#[test]
fn what_an_instruction_comes_to() {
    let infos = vec![info("eDP-1", true, 7, Some(1)), info("DP-1", true, 0, None)];
    let target = find_target(&infos, &table(), &setting("eDP-1", "640x480@60.000")).unwrap();
    assert_eq!((target.crtc, target.mode, target.width, target.height), (7, 2, 640, 480));
    assert_eq!(
        find_target(&infos, &table(), &setting("VGA", "640x480@60.000")).unwrap_err(),
        "VGA is not connected"
    );
    assert_eq!(
        find_target(&infos, &table(), &setting("DP-1", "640x480@60.000")).unwrap_err(),
        "DP-1 is switched off"
    );
    assert_eq!(
        find_target(&infos, &table(), &setting("eDP-1", "1x1@60.000")).unwrap_err(),
        "eDP-1 does not offer mode 1x1@60.000"
    );
}

#[test]
fn one_bad_instruction_stops_the_whole_change() {
    let infos = vec![info("eDP-1", true, 7, Some(1)), info("DP-1", true, 0, None)];
    let good = setting("eDP-1", "640x480@60.000");
    let targets = find_targets(&infos, &table(), &[good.clone()]).unwrap();
    assert_eq!(targets.len(), 1);
    assert_eq!((targets[0].crtc, targets[0].mode), (7, 2));
    assert_eq!(
        find_targets(
            &infos,
            &table(),
            &[
                good.clone(),
                setting("VGA", "640x480@60.000"),
                setting("DP-1", "640x480@60.000"),
            ],
        )
        .unwrap_err(),
        "VGA is not connected"
    );
    assert!(find_targets(&infos, &table(), &[setting("eDP-1", "1x1@60.000"), good]).is_err());
    assert!(find_targets(&infos, &table(), &[]).unwrap().is_empty());
    assert!(requests(&vec![], &vec![], (1920, 1080)).is_empty());
}

fn crtc_info(mode: u32, x: i16, y: i16, width: u16, height: u16) -> CrtcInfo {
    CrtcInfo {
        mode,
        x,
        y,
        width,
        height,
        rotation: 1,
        outputs: vec![42],
    }
}

fn change(width: u16, height: u16, rotation: u16) -> Change {
    let infos = vec![info("eDP-1", true, 7, Some(1))];
    let target = find_target(&infos, &table(), &setting("eDP-1", "1000x800@60.000")).unwrap();
    let mut place = crtc_info(1, 100, 0, 1, 1);
    place.rotation = rotation;
    let mut change = Change::new(target, place);
    assert_eq!(change.outputs, vec![42]);
    change.width = width;
    change.height = height;
    change
}

fn crtcs(other: CrtcInfo) -> Vec<Crtc> {
    vec![
        Crtc { crtc: 7, info: None },
        Crtc { crtc: 8, info: Some(other) },
    ]
}

#[test]
fn the_screen_covers_what_changes_and_what_does_not() {
    let changes = vec![change(1000, 800, 1)];
    assert!(!is_untouched(&changes, 7));
    assert!(is_untouched(&changes, 8));
    let size = screen_size_after(&changes, &crtcs(crtc_info(3, 0, 500, 640, 480)));
    assert_eq!(size, (1100, 980));
    let turned = vec![change(1000, 800, 2)];
    assert_eq!(
        screen_size_after(&turned, &crtcs(crtc_info(0, 0, 5000, 640, 480))),
        (900, 1000)
    );
    assert_eq!(screen_size_after(&vec![], &vec![]), (1, 1));
}

#[test]
fn the_screen_grows_first_and_shrinks_last() {
    let changes = vec![change(1000, 800, 1)];
    let others = crtcs(crtc_info(0, 0, 0, 0, 0));
    assert_eq!(
        requests(&changes, &others, (640, 900)),
        vec![Request::Resize(1100, 900), Request::Configure(0)]
    );
    assert_eq!(
        requests(&changes, &others, (2000, 800)),
        vec![Request::Configure(0), Request::Resize(1100, 800)]
    );
    assert_eq!(requests(&changes, &others, (1100, 800)), vec![Request::Configure(0)]);
    assert!(requests(&vec![], &others, (1, 1)).is_empty());
}

#[test]
fn the_last_resort() {
    let wanted = [setting("eDP-1", "1920x1080@59.94+vrr"), setting("DP-1", "800x600@60")];
    let args = xrandr_args(&wanted).unwrap();
    assert_eq!(
        args,
        vec![
            "--output", "eDP-1", "--mode", "1920x1080", "--rate", "59.940", "--output", "DP-1",
            "--mode", "800x600", "--rate", "60.000",
        ]
    );
    assert_eq!(
        xrandr_args(&[setting("eDP-1", "wide")]).unwrap_err(),
        "unreadable mode id wide"
    );
    assert_eq!(
        xrandr_failure(&vec!["--rate".into(), "60".into()], " no \n"),
        "xrandr --rate 60 failed: no"
    );
    assert_eq!(
        refusal(63, "InvalidTime"),
        "the X server refused the mode change for CRTC 63 (InvalidTime)"
    );
}

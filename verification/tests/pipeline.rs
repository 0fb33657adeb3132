use autoxrandr::profile::Profile;
use autoxrandr::xrandr_output::parse;
use autoxrandr::xrandr_output::parse_active_monitors;
use autoxrandr::xrandr_output::ConnectionState;
use autoxrandr::xrandr_output::Decimal;

fn b(s: &str) -> Vec<u8> {
    s.as_bytes().to_vec()
}

fn toks(args: &[Vec<u8>]) -> Vec<String> {
    args.iter().map(|t| String::from_utf8(t.clone()).unwrap()).collect()
}

const REPORT: &str = "Screen 0: minimum 320 x 200, current 1920 x 1080\neDP-1 connected primary 1920x1080+0+0 (normal left inverted) 344mm x 194mm\n   1920x1080  60.00*+\nHDMI-1 disconnected (normal left inverted)\n";

const ACTIVE: &str = "Monitors: 1\n 0: +*eDP-1 1920/344x1080/194+0+0  eDP-1\n";

#[test]
fn full_pipeline_scenario() {
    let output = parse(REPORT.as_bytes()).unwrap();
    let active = parse_active_monitors(ACTIVE.as_bytes()).unwrap();
    assert_eq!(active, vec![b("eDP-1")]);

    let profile = Profile::build(&output, &active).unwrap();
    assert_eq!(profile.connected_devices.len(), 1);
    let (name, dev) = &profile.connected_devices[0];
    assert_eq!(*name, b("eDP-1"));
    assert_eq!(dev.resolution.width, 1920);
    assert_eq!(dev.resolution.height, 1080);
    assert_eq!(dev.offset.x, 0);
    assert_eq!(dev.offset.y, 0);
    assert!(dev.primary);
    assert_eq!(dev.refresh_rate, Decimal { whole: 60, frac: 0, frac_len: 2 });
    assert_eq!(profile.off_devices, vec![b("HDMI-1")]);

    let args = profile.generate();
    assert_eq!(
        toks(&args),
        vec![
            "--output", "eDP-1", "--primary", "--mode", "1920x1080", "--rate", "60", "--output",
            "HDMI-1", "--off",
        ]
    );
}

#[test]
fn pipeline_is_deterministic() {
    let run = || {
        let output = parse(REPORT.as_bytes()).unwrap();
        let active = parse_active_monitors(ACTIVE.as_bytes()).unwrap();
        Profile::build(&output, &active).unwrap().generate()
    };
    assert_eq!(run(), run());
}

#[test]
fn missing_current_refresh_rate_names_connector() {
    let report = "Screen 0: stuff\neDP-1 connected 1920x1080+0+0 (normal)\n   1920x1080  60.00 +\n";
    let active = "Monitors: 1\n 0: +*eDP-1 1920/344x1080/194+0+0  eDP-1\n";
    let output = parse(report.as_bytes()).unwrap();
    let active = parse_active_monitors(active.as_bytes()).unwrap();
    let err = Profile::build(&output, &active).unwrap_err();
    assert_eq!(err.connector, b("eDP-1"));
}

#[test]
fn no_geometry_parses_as_none_and_generate_omits_mode_and_pos() {
    let report = "Screen 0: stuff\nDP-1 connected\n   640x480  59.94*+\n";
    let output = parse(report.as_bytes()).unwrap();
    assert_eq!(output.displays.len(), 1);
    let d = &output.displays[0];
    assert!(d.resolution.is_none());
    assert!(d.offset.is_none());
    assert!(matches!(d.state, ConnectionState::Connected));

    let active = vec![b("DP-1")];
    let profile = Profile::build(&output, &active).unwrap();
    let args = toks(&profile.generate());
    assert_eq!(args, vec!["--output", "DP-1", "--rate", "59.94"]);
    assert!(!args.iter().any(|t| t == "--mode"));
    assert!(!args.iter().any(|t| t == "--pos"));
    assert!(!args.iter().any(|t| t == "--off"));
}

#[test]
fn inactive_devices_are_turned_off() {
    let output = parse(REPORT.as_bytes()).unwrap();
    let active: Vec<Vec<u8>> = vec![];
    let profile = Profile::build(&output, &active).unwrap();
    assert!(profile.connected_devices.is_empty());
    assert_eq!(profile.off_devices, vec![b("eDP-1"), b("HDMI-1")]);
    let args = toks(&profile.generate());
    assert_eq!(args, vec!["--output", "eDP-1", "--off", "--output", "HDMI-1", "--off"]);
}

use autoxrandr::parse_xrandr_output;
use autoxrandr::xrandr_output::parse;
use autoxrandr::xrandr_output::parse_active_monitors;
use autoxrandr::xrandr_output::ConnectionState;
use autoxrandr::xrandr_output::Decimal;

fn b(s: &str) -> Vec<u8> {
    s.as_bytes().to_vec()
}

#[test]
fn parses_states_geometry_and_flags() {
    let lines = [
        "Screen 0: minimum 320 x 200",
        "eDP-1 connected primary 1920x1080+0+0 (normal) 344mm x 194mm",
        "   1920x1080  60.00*+  59.95  ",
        "   1680x1050  59.95 +",
        "HDMI-1 disconnected (normal)",
        "DP-3 connected 1280x1024+1920+56 (normal) 338mm x 270mm",
        "   1280x1024  75.02*   60.02  ",
        "",
    ];
    let report = lines.join("\n");
    let out = parse(report.as_bytes()).unwrap();
    assert_eq!(out.displays.len(), 3);

    let d0 = &out.displays[0];
    assert_eq!(d0.connector, b("eDP-1"));
    assert!(matches!(d0.state, ConnectionState::Connected));
    assert!(d0.primary);
    assert_eq!(d0.resolution.as_ref().map(|r| (r.width, r.height)), Some((1920, 1080)));
    assert_eq!(d0.offset.as_ref().map(|o| (o.x, o.y)), Some((0, 0)));
    assert_eq!(d0.capabilities.len(), 2);
    let c0 = &d0.capabilities[0];
    assert_eq!((c0.resolution.width, c0.resolution.height), (1920, 1080));
    assert_eq!(c0.refresh_rates.len(), 2);
    assert_eq!(c0.refresh_rates[0].clock, Decimal { whole: 60, frac: 0, frac_len: 2 });
    assert!(c0.refresh_rates[0].current);
    assert!(c0.refresh_rates[0].preferred);
    assert_eq!(c0.refresh_rates[1].clock, Decimal { whole: 59, frac: 95, frac_len: 2 });
    assert!(!c0.refresh_rates[1].current);
    assert!(!c0.refresh_rates[1].preferred);
    let c1 = &d0.capabilities[1];
    assert!(!c1.refresh_rates[0].current);
    assert!(c1.refresh_rates[0].preferred);

    let d1 = &out.displays[1];
    assert_eq!(d1.connector, b("HDMI-1"));
    assert!(matches!(d1.state, ConnectionState::Disconnected));
    assert!(!d1.primary);
    assert!(d1.resolution.is_none());
    assert!(d1.offset.is_none());
    assert!(d1.capabilities.is_empty());

    let d2 = &out.displays[2];
    assert_eq!(d2.connector, b("DP-3"));
    assert!(!d2.primary);
    assert_eq!(d2.resolution.as_ref().map(|r| (r.width, r.height)), Some((1280, 1024)));
    assert_eq!(d2.offset.as_ref().map(|o| (o.x, o.y)), Some((1920, 56)));
}

#[test]
fn convenience_entry_point_agrees() {
    let report = "Screen 0: x\neDP-1 disconnected\n";
    let a = parse(report.as_bytes()).unwrap();
    let c = parse_xrandr_output::parse(report.as_bytes()).unwrap();
    assert_eq!(a.displays.len(), c.displays.len());
    assert_eq!(a.displays[0].connector, c.displays[0].connector);
}

#[test]
fn accepts_crlf_line_endings() {
    let report = "Screen 0: x\r\neDP-1 connected 10x20+3+4 text\r\n   10x20  30.00*+\r\n";
    let out = parse(report.as_bytes()).unwrap();
    assert_eq!(out.displays.len(), 1);
    let d = &out.displays[0];
    assert_eq!(d.resolution.as_ref().map(|r| (r.width, r.height)), Some((10, 20)));
    assert_eq!(d.offset.as_ref().map(|o| (o.x, o.y)), Some((3, 4)));
    assert_eq!(d.capabilities.len(), 1);
}

#[test]
fn report_without_trailing_newline_parses() {
    let report = "Screen 0: x\neDP-1 disconnected";
    let out = parse(report.as_bytes()).unwrap();
    assert_eq!(out.displays.len(), 1);
    assert_eq!(out.displays[0].connector, b("eDP-1"));
}

#[test]
fn empty_device_section_parses() {
    let out = parse(b"Screen 0: x\n".as_slice()).unwrap();
    assert!(out.displays.is_empty());
}

#[test]
fn header_without_newline_is_malformed() {
    assert!(parse(b"Screen 0: x".as_slice()).is_err());
    assert!(parse(b"".as_slice()).is_err());
}

#[test]
fn blank_line_between_devices_is_malformed() {
    assert!(parse(b"Screen 0: x\n\neDP-1 disconnected\n".as_slice()).is_err());
}

#[test]
fn unknown_state_word_is_malformed() {
    assert!(parse(b"Screen 0: x\neDP-1 conected\n".as_slice()).is_err());
}

#[test]
fn refresh_rate_without_flag_columns_is_malformed() {
    // the two one-character flag columns are part of the token
    assert!(parse(b"Screen 0: x\ne connected\n   1x1  60.00\n".as_slice()).is_err());
}

#[test]
fn clock_without_fraction_is_malformed() {
    assert!(parse(b"Screen 0: x\ne connected\n   1x1  60*+\n".as_slice()).is_err());
}

#[test]
fn junk_on_capability_line_is_malformed() {
    assert!(parse(b"Screen 0: x\ne connected\n   1x1  60.00*+ junk\n".as_slice()).is_err());
}

#[test]
fn oversized_geometry_number_is_ignored_as_free_text() {
    // the geometry token is optional: a number too large for it makes the
    // rest of the line free text, as the grammar's backtracking demands
    let out = parse(b"Screen 0: x\ne connected 99999999999x10+0+0\n".as_slice()).unwrap();
    assert!(out.displays[0].resolution.is_none());
    assert!(out.displays[0].offset.is_none());
}

#[test]
fn parses_active_monitor_report() {
    let report = "Monitors: 2\n 0: +*eDP-1 1920/344x1080/194+0+0  eDP-1\n 1: HDMI-1 800/100x600/80+0+0  HDMI-1\n";
    let active = parse_active_monitors(report.as_bytes()).unwrap();
    assert_eq!(active, vec![b("eDP-1"), b("HDMI-1")]);
}

#[test]
fn active_monitor_report_without_colon_is_malformed() {
    assert!(parse_active_monitors(b"Monitors: 1\n 0 +*eDP-1 x\n".as_slice()).is_err());
}

#[test]
fn active_monitor_report_empty_list_parses() {
    let active = parse_active_monitors(b"Monitors: 0\n".as_slice()).unwrap();
    assert!(active.is_empty());
}

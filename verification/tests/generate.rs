use autoxrandr::profile::DisplayDeviceProfile;
use autoxrandr::profile::Profile;
use autoxrandr::profile::Profiles;
use autoxrandr::xrandr_output::Decimal;
use autoxrandr::xrandr_output::Offset;
use autoxrandr::xrandr_output::Resolution;

fn b(s: &str) -> Vec<u8> {
    s.as_bytes().to_vec()
}

fn toks(args: &[Vec<u8>]) -> Vec<String> {
    args.iter().map(|t| String::from_utf8(t.clone()).unwrap()).collect()
}

fn device(
    res: (u32, u32),
    off: (u32, u32),
    primary: bool,
    rate: (u32, u32, u32),
) -> DisplayDeviceProfile {
    DisplayDeviceProfile {
        resolution: Resolution { width: res.0, height: res.1 },
        offset: Offset { x: off.0, y: off.1 },
        primary,
        refresh_rate: Decimal { whole: rate.0, frac: rate.1, frac_len: rate.2 },
    }
}

#[test]
fn generates_every_group_member_in_order() {
    let profile = Profile {
        connected_devices: vec![(b("DP-2"), device((2560, 1440), (1920, 0), false, (59, 95, 2)))],
        off_devices: vec![b("DP-1")],
    };
    assert_eq!(
        toks(&profile.generate()),
        vec![
            "--output", "DP-2", "--mode", "2560x1440", "--pos", "1920x0", "--rate", "59.95",
            "--output", "DP-1", "--off",
        ]
    );
}

#[test]
fn zero_sentinels_suppress_their_arguments() {
    let profile = Profile {
        connected_devices: vec![(b("DP-2"), device((0, 0), (0, 0), false, (0, 0, 1)))],
        off_devices: vec![],
    };
    assert_eq!(toks(&profile.generate()), vec!["--output", "DP-2"]);
}

#[test]
fn rate_rendering_drops_trailing_zeros() {
    let cases = [
        ((60, 0, 2), "60"),
        ((59, 95, 2), "59.95"),
        ((60, 50, 2), "60.5"),
        ((60, 5, 2), "60.05"),
        ((144, 0, 0), "144"),
        ((23, 976, 3), "23.976"),
    ];
    for ((whole, frac, frac_len), expected) in cases {
        let profile = Profile {
            connected_devices: vec![(b("X"), device((1, 1), (0, 0), false, (whole, frac, frac_len)))],
            off_devices: vec![],
        };
        let args = toks(&profile.generate());
        assert_eq!(args, vec!["--output", "X", "--mode", "1x1", "--rate", expected]);
    }
}

#[test]
fn primary_flag_is_emitted_after_the_connector() {
    let profile = Profile {
        connected_devices: vec![(b("eDP-1"), device((1, 2), (0, 0), true, (0, 0, 1)))],
        off_devices: vec![],
    };
    assert_eq!(toks(&profile.generate()), vec!["--output", "eDP-1", "--primary", "--mode", "1x2"]);
}

#[test]
fn store_insert_get_replace_remove() {
    let mut store = Profiles::new();
    assert!(store.get(&b("home")).is_none());

    let p1 = Profile { connected_devices: vec![], off_devices: vec![b("HDMI-1")] };
    store.insert(b("home"), p1);
    let got = store.get(&b("home")).unwrap();
    assert_eq!(got.off_devices, vec![b("HDMI-1")]);

    let p2 = Profile { connected_devices: vec![], off_devices: vec![b("DP-1")] };
    store.insert(b("home"), p2);
    let got = store.get(&b("home")).unwrap();
    assert_eq!(got.off_devices, vec![b("DP-1")]);
    assert_eq!(store.names(), vec![b("home")]);

    let p3 = Profile { connected_devices: vec![], off_devices: vec![] };
    store.insert(b("work"), p3);
    assert_eq!(store.names(), vec![b("home"), b("work")]);

    assert!(store.remove(&b("home")));
    assert!(store.get(&b("home")).is_none());
    assert!(!store.remove(&b("home")));
    assert!(store.get(&b("work")).is_some());
}

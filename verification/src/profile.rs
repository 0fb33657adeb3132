//! Persisted layout profiles: building one from a parsed status report and
//! the active-monitor set, and regenerating the argument list that
//! re-applies it.

use vstd::prelude::*;

use crate::lex::bytes_eq;
use crate::lex::dec_digits;
use crate::lex::push_dec_u32;
use crate::xrandr_output::bytes_view;
use crate::xrandr_output::caps_view;
use crate::xrandr_output::Capability;
use crate::xrandr_output::CapabilityV;
use crate::xrandr_output::Decimal;
use crate::xrandr_output::DisplayDeviceV;
use crate::xrandr_output::Offset;
use crate::xrandr_output::RefreshRate;
use crate::xrandr_output::Resolution;
use crate::xrandr_output::XRandrOutput;

verus! {

/// The persisted settings of one enabled connector.  A zero resolution,
/// offset or rate stands for "unspecified".
#[derive(Clone, Copy, PartialEq, Eq, Structural, Debug)]
pub struct DisplayDeviceProfile {
    pub resolution: Resolution,
    pub offset: Offset,
    pub primary: bool,
    pub refresh_rate: Decimal,
}

/// A layout: the connectors it enables, each with its settings, and the
/// connectors it turns off.  Every connector of the report stands in
/// exactly one of the two lists.
#[derive(Clone, Debug)]
pub struct Profile {
    pub connected_devices: Vec<(Vec<u8>, DisplayDeviceProfile)>,
    pub off_devices: Vec<Vec<u8>>,
}

/// Mathematical value of a `Profile`.
#[verifier::ext_equal]
pub ghost struct ProfileV {
    pub connected_devices: Seq<(Seq<u8>, DisplayDeviceProfile)>,
    pub off_devices: Seq<Seq<u8>>,
}

impl View for Profile {
    type V = ProfileV;

    open spec fn view(&self) -> ProfileV {
        ProfileV {
            connected_devices: entries_view(self.connected_devices@),
            off_devices: bytes_view(self.off_devices@),
        }
    }
}

/// The values of a sequence of named device settings.
pub open spec fn entries_view(s: Seq<(Vec<u8>, DisplayDeviceProfile)>) -> Seq<
    (Seq<u8>, DisplayDeviceProfile),
> {
    s.map_values(|e: (Vec<u8>, DisplayDeviceProfile)| (e.0@, e.1))
}

/// An active device that advertises no current mode; names the connector
/// at fault.
#[derive(Clone, PartialEq, Eq, Debug)]
pub struct MissingCurrentRefreshRate {
    pub connector: Vec<u8>,
}

// ---------------------------------------------------------------------------
// Building a profile.
// ---------------------------------------------------------------------------

/// The clock of the first rate flagged current, or nothing.
pub open spec fn spec_first_current_rate(rates: Seq<RefreshRate>) -> Option<Decimal>
    decreases rates.len(),
{
    if rates.len() == 0 {
        None
    } else if rates[0].current {
        Some(rates[0].clock)
    } else {
        spec_first_current_rate(rates.skip(1))
    }
}

/// The clock of the first current-flagged rate of the first capability that
/// has one, in report order.
pub open spec fn spec_find_current(caps: Seq<CapabilityV>) -> Option<Decimal>
    decreases caps.len(),
{
    if caps.len() == 0 {
        None
    } else {
        match spec_first_current_rate(caps[0].refresh_rates) {
            Some(c) => Some(c),
            None => spec_find_current(caps.skip(1)),
        }
    }
}

/// Does `c` name one of the connectors in `active`?
pub open spec fn spec_is_active(active: Seq<Seq<u8>>, c: Seq<u8>) -> bool {
    exists|k: int| 0 <= k < active.len() && active[k] == c
}

/// The settings kept for an active device: absent geometry becomes the zero
/// sentinel.
pub open spec fn spec_device_profile(d: DisplayDeviceV, rate: Decimal) -> DisplayDeviceProfile {
    DisplayDeviceProfile {
        resolution: match d.resolution {
            Some(r) => r,
            None => Resolution { width: 0, height: 0 },
        },
        offset: match d.offset {
            Some(o) => o,
            None => Offset { x: 0, y: 0 },
        },
        primary: d.primary,
        refresh_rate: rate,
    }
}

/// The profile built from the first `n` devices; an active device without a
/// current mode fails the build with its connector, and the first failure
/// wins.
pub open spec fn spec_build_prefix(
    devs: Seq<DisplayDeviceV>,
    active: Seq<Seq<u8>>,
    n: int,
) -> Result<ProfileV, Seq<u8>>
    decreases n when 0 <= n <= devs.len()
{
    if n <= 0 {
        Ok(ProfileV { connected_devices: seq![], off_devices: seq![] })
    } else {
        match spec_build_prefix(devs, active, n - 1) {
            Err(c) => Err(c),
            Ok(p) => {
                let d = devs[n - 1];
                if spec_is_active(active, d.connector) {
                    match spec_find_current(d.capabilities) {
                        None => Err(d.connector),
                        Some(rate) => Ok(
                            ProfileV {
                                connected_devices: p.connected_devices.push(
                                    (d.connector, spec_device_profile(d, rate)),
                                ),
                                off_devices: p.off_devices,
                            },
                        ),
                    }
                } else {
                    Ok(
                        ProfileV {
                            connected_devices: p.connected_devices,
                            off_devices: p.off_devices.push(d.connector),
                        },
                    )
                }
            },
        }
    }
}

/// The profile built from a whole report.
pub open spec fn spec_build(devs: Seq<DisplayDeviceV>, active: Seq<Seq<u8>>) -> Result<
    ProfileV,
    Seq<u8>,
> {
    spec_build_prefix(devs, active, devs.len() as int)
}

/// A failed prefix keeps its failure, whatever follows.
pub proof fn lemma_build_prefix_err(
    devs: Seq<DisplayDeviceV>,
    active: Seq<Seq<u8>>,
    n: int,
    m: int,
)
    requires
        0 <= n <= m <= devs.len(),
        spec_build_prefix(devs, active, n) is Err,
    ensures
        spec_build_prefix(devs, active, m) == spec_build_prefix(devs, active, n),
    decreases m - n,
{
    if m > n {
        lemma_build_prefix_err(devs, active, n, m - 1);
    }
}

/// The clock of the first current-flagged rate in `rates`.
pub fn first_current_rate(rates: &Vec<RefreshRate>) -> (r: Option<Decimal>)
    ensures
        r == spec_first_current_rate(rates@),
{
    let mut k: usize = 0;
    proof {
        assert(rates@.skip(0) =~= rates@);
    }
    while k < rates.len()
        invariant
            k <= rates@.len(),
            spec_first_current_rate(rates@) == spec_first_current_rate(rates@.skip(k as int)),
        decreases rates@.len() - k,
    {
        proof {
            assert(rates@.skip(k as int)[0] == rates@[k as int]);
        }
        if rates[k].current {
            return Some(rates[k].clock);
        }
        proof {
            assert(rates@.skip(k as int).skip(1) =~= rates@.skip(k + 1));
        }
        k = k + 1;
    }
    None
}

/// The clock of the first current-flagged rate among `caps`.
pub fn find_current(caps: &Vec<Capability>) -> (r: Option<Decimal>)
    ensures
        r == spec_find_current(caps_view(caps@)),
{
    let ghost cv = caps_view(caps@);
    let mut k: usize = 0;
    proof {
        assert(cv.skip(0) =~= cv);
    }
    while k < caps.len()
        invariant
            k <= caps@.len(),
            cv == caps_view(caps@),
            cv.len() == caps@.len(),
            spec_find_current(cv) == spec_find_current(cv.skip(k as int)),
        decreases caps@.len() - k,
    {
        proof {
            assert(cv.skip(k as int)[0] == cv[k as int]);
            assert(cv[k as int] == caps@[k as int]@);
        }
        match first_current_rate(&caps[k].refresh_rates) {
            Some(c) => {
                return Some(c);
            },
            None => {
                proof {
                    assert(cv.skip(k as int).skip(1) =~= cv.skip(k + 1));
                }
                k = k + 1;
            },
        }
    }
    None
}

/// Is `c` one of the names in `active`?
pub fn is_active(active: &Vec<Vec<u8>>, c: &Vec<u8>) -> (r: bool)
    ensures
        r == spec_is_active(bytes_view(active@), c@),
{
    let ghost av = bytes_view(active@);
    let mut k: usize = 0;
    while k < active.len()
        invariant
            k <= active@.len(),
            av == bytes_view(active@),
            av.len() == active@.len(),
            forall|j: int| 0 <= j < k ==> av[j] != c@,
        decreases active@.len() - k,
    {
        proof {
            assert(av[k as int] == active@[k as int]@);
        }
        if bytes_eq(&active[k], c) {
            return true;
        }
        k = k + 1;
    }
    false
}

/// A fresh copy of a byte string.
pub fn clone_bytes(v: &Vec<u8>) -> (r: Vec<u8>)
    ensures
        r@ == v@,
{
    let mut r: Vec<u8> = Vec::new();
    let mut k: usize = 0;
    while k < v.len()
        invariant
            k <= v@.len(),
            r@ == v@.subrange(0, k as int),
        decreases v@.len() - k,
    {
        r.push(v[k]);
        proof {
            assert(r@ =~= v@.subrange(0, k + 1));
        }
        k = k + 1;
    }
    proof {
        assert(r@ =~= v@);
    }
    r
}

impl Profile {
    /// Build the profile for one parsed status report and the active
    /// connector names: every active device keeps its settings, with zero
    /// standing for an absent geometry and the current mode's clock as its
    /// rate; every other device is turned off.  Fails with the connector of
    /// the first active device that advertises no current mode.
    pub fn build(output: &XRandrOutput, active: &Vec<Vec<u8>>) -> (r: Result<
        Profile,
        MissingCurrentRefreshRate,
    >)
        ensures
            match spec_build(output@, bytes_view(active@)) {
                Ok(p) => r is Ok && r->Ok_0@ == p,
                Err(c) => r is Err && r->Err_0.connector@ == c,
            },
    {
        let ghost devs = output@;
        let ghost act = bytes_view(active@);
        let mut connected: Vec<(Vec<u8>, DisplayDeviceProfile)> = Vec::new();
        let mut off: Vec<Vec<u8>> = Vec::new();
        let mut k: usize = 0;
        proof {
            assert(entries_view(connected@) =~= Seq::<(Seq<u8>, DisplayDeviceProfile)>::empty());
            assert(bytes_view(off@) =~= Seq::<Seq<u8>>::empty());
        }
        while k < output.displays.len()
            invariant
                k <= output.displays@.len(),
                devs == output@,
                devs.len() == output.displays@.len(),
                act == bytes_view(active@),
                spec_build_prefix(devs, act, k as int) == Ok::<ProfileV, Seq<u8>>(
                    ProfileV {
                        connected_devices: entries_view(connected@),
                        off_devices: bytes_view(off@),
                    },
                ),
            decreases output.displays@.len() - k,
        {
            let d = &output.displays[k];
            proof {
                assert(devs[k as int] == output.displays@[k as int]@);
            }
            if is_active(active, &d.connector) {
                match find_current(&d.capabilities) {
                    None => {
                        proof {
                            assert(spec_build_prefix(devs, act, k + 1) == Err::<ProfileV, Seq<u8>>(
                                devs[k as int].connector,
                            ));
                            lemma_build_prefix_err(devs, act, k + 1, devs.len() as int);
                        }
                        return Err(MissingCurrentRefreshRate { connector: clone_bytes(&d.connector) });
                    },
                    Some(rate) => {
                        let width = match d.resolution {
                            Some(r) => r.width,
                            None => 0,
                        };
                        let height = match d.resolution {
                            Some(r) => r.height,
                            None => 0,
                        };
                        let x = match d.offset {
                            Some(o) => o.x,
                            None => 0,
                        };
                        let y = match d.offset {
                            Some(o) => o.y,
                            None => 0,
                        };
                        let entry = DisplayDeviceProfile {
                            resolution: Resolution { width, height },
                            offset: Offset { x, y },
                            primary: d.primary,
                            refresh_rate: rate,
                        };
                        let name = clone_bytes(&d.connector);
                        let ghost pre = connected@;
                        connected.push((name, entry));
                        proof {
                            assert(entries_view(connected@) =~= entries_view(pre).push(
                                (devs[k as int].connector, entry),
                            ));
                        }
                    },
                }
            } else {
                let name = clone_bytes(&d.connector);
                let ghost pre = off@;
                off.push(name);
                proof {
                    assert(bytes_view(off@) =~= bytes_view(pre).push(devs[k as int].connector));
                }
            }
            k = k + 1;
        }
        let prof = Profile { connected_devices: connected, off_devices: off };
        proof {
            assert(prof@ =~= spec_build(devs, act)->Ok_0);
        }
        Ok(prof)
    }
}

// ---------------------------------------------------------------------------
// Generating the argument list.
// ---------------------------------------------------------------------------

/// The bytes of the token `--output`.
pub open spec fn tok_output() -> Seq<u8> {
    seq![45u8, 45u8, 111u8, 117u8, 116u8, 112u8, 117u8, 116u8]
}

/// The bytes of the token `--primary`.
pub open spec fn tok_primary() -> Seq<u8> {
    seq![45u8, 45u8, 112u8, 114u8, 105u8, 109u8, 97u8, 114u8, 121u8]
}

/// The bytes of the token `--mode`.
pub open spec fn tok_mode() -> Seq<u8> {
    seq![45u8, 45u8, 109u8, 111u8, 100u8, 101u8]
}

/// The bytes of the token `--pos`.
pub open spec fn tok_pos() -> Seq<u8> {
    seq![45u8, 45u8, 112u8, 111u8, 115u8]
}

/// The bytes of the token `--rate`.
pub open spec fn tok_rate() -> Seq<u8> {
    seq![45u8, 45u8, 114u8, 97u8, 116u8, 101u8]
}

/// The bytes of the token `--off`.
pub open spec fn tok_off() -> Seq<u8> {
    seq![45u8, 45u8, 111u8, 102u8, 102u8]
}

fn make_output() -> (v: Vec<u8>)
    ensures
        v@ == tok_output(),
{
    let mut v: Vec<u8> = Vec::new();
    v.push(45);
    v.push(45);
    v.push(111);
    v.push(117);
    v.push(116);
    v.push(112);
    v.push(117);
    v.push(116);
    proof {
        assert(v@ =~= tok_output());
    }
    v
}

fn make_primary() -> (v: Vec<u8>)
    ensures
        v@ == tok_primary(),
{
    let mut v: Vec<u8> = Vec::new();
    v.push(45);
    v.push(45);
    v.push(112);
    v.push(114);
    v.push(105);
    v.push(109);
    v.push(97);
    v.push(114);
    v.push(121);
    proof {
        assert(v@ =~= tok_primary());
    }
    v
}

fn make_mode() -> (v: Vec<u8>)
    ensures
        v@ == tok_mode(),
{
    let mut v: Vec<u8> = Vec::new();
    v.push(45);
    v.push(45);
    v.push(109);
    v.push(111);
    v.push(100);
    v.push(101);
    proof {
        assert(v@ =~= tok_mode());
    }
    v
}

fn make_pos() -> (v: Vec<u8>)
    ensures
        v@ == tok_pos(),
{
    let mut v: Vec<u8> = Vec::new();
    v.push(45);
    v.push(45);
    v.push(112);
    v.push(111);
    v.push(115);
    proof {
        assert(v@ =~= tok_pos());
    }
    v
}

fn make_rate() -> (v: Vec<u8>)
    ensures
        v@ == tok_rate(),
{
    let mut v: Vec<u8> = Vec::new();
    v.push(45);
    v.push(45);
    v.push(114);
    v.push(97);
    v.push(116);
    v.push(101);
    proof {
        assert(v@ =~= tok_rate());
    }
    v
}

fn make_off() -> (v: Vec<u8>)
    ensures
        v@ == tok_off(),
{
    let mut v: Vec<u8> = Vec::new();
    v.push(45);
    v.push(45);
    v.push(111);
    v.push(102);
    v.push(102);
    proof {
        assert(v@ =~= tok_off());
    }
    v
}

/// The token `<a>x<b>`, as in `1920x1080`.
pub open spec fn spec_dims_token(a: int, b: int) -> Seq<u8> {
    dec_digits(a) + seq![120u8] + dec_digits(b)
}

fn make_dims(a: u32, b: u32) -> (v: Vec<u8>)
    ensures
        v@ == spec_dims_token(a as int, b as int),
{
    let mut v: Vec<u8> = Vec::new();
    push_dec_u32(&mut v, a);
    v.push(120);
    push_dec_u32(&mut v, b);
    proof {
        assert(v@ =~= spec_dims_token(a as int, b as int));
    }
    v
}

/// The fraction with its trailing zero digits removed.
pub open spec fn spec_stripped(f: int, len: int) -> (int, int)
    decreases len when len >= 0
{
    if len <= 0 || f % 10 != 0 {
        (f, len)
    } else {
        spec_stripped(f / 10, len - 1)
    }
}

/// The digits of a fraction, fixed width `len`, most significant first.
pub open spec fn frac_digits(f: int, len: int) -> Seq<u8>
    decreases len when len >= 0
{
    if len <= 0 {
        seq![]
    } else {
        frac_digits(f / 10, len - 1).push((48 + f % 10) as u8)
    }
}

/// The decimal rendering of a rate: the whole part, then the fraction with
/// trailing zeros removed, and no decimal point when nothing of the
/// fraction remains.
pub open spec fn spec_rate_token(d: Decimal) -> Seq<u8> {
    let s = spec_stripped(d.frac as int, d.frac_len as int);
    if s.1 == 0 {
        dec_digits(d.whole as int)
    } else {
        dec_digits(d.whole as int) + seq![46u8] + frac_digits(s.0, s.1)
    }
}

fn push_frac(out: &mut Vec<u8>, f: u32, l: u32)
    ensures
        final(out)@ == old(out)@ + frac_digits(f as int, l as int),
    decreases l,
{
    if l > 0 {
        push_frac(out, f / 10, l - 1);
        out.push(48 + ((f % 10) as u8));
        assert(out@ =~= old(out)@ + frac_digits(f as int, l as int));
    } else {
        assert(out@ =~= old(out)@ + frac_digits(f as int, 0));
    }
}

fn make_rate_value(d: Decimal) -> (v: Vec<u8>)
    ensures
        v@ == spec_rate_token(d),
{
    let mut f = d.frac;
    let mut l = d.frac_len;
    while l > 0 && f % 10 == 0
        invariant
            spec_stripped(d.frac as int, d.frac_len as int) == spec_stripped(f as int, l as int),
        decreases l,
    {
        f = f / 10;
        l = l - 1;
    }
    let mut v: Vec<u8> = Vec::new();
    push_dec_u32(&mut v, d.whole);
    if l > 0 {
        v.push(46);
        push_frac(&mut v, f, l);
    }
    proof {
        assert(v@ =~= spec_rate_token(d));
    }
    v
}

/// The argument group that enables one connector: `--output <c>`, then
/// `--primary`, `--mode`, `--pos` and `--rate` as far as the settings are
/// not the zero sentinel.
pub open spec fn spec_device_args(c: Seq<u8>, d: DisplayDeviceProfile) -> Seq<Seq<u8>> {
    seq![tok_output(), c] + (if d.primary {
        seq![tok_primary()]
    } else {
        seq![]
    }) + (if !(d.resolution.width == 0 && d.resolution.height == 0) {
        seq![tok_mode(), spec_dims_token(d.resolution.width as int, d.resolution.height as int)]
    } else {
        seq![]
    }) + (if !(d.offset.x == 0 && d.offset.y == 0) {
        seq![tok_pos(), spec_dims_token(d.offset.x as int, d.offset.y as int)]
    } else {
        seq![]
    }) + (if !d.refresh_rate.spec_is_zero() {
        seq![tok_rate(), spec_rate_token(d.refresh_rate)]
    } else {
        seq![]
    })
}

/// The argument group that turns one connector off.
pub open spec fn spec_off_args(c: Seq<u8>) -> Seq<Seq<u8>> {
    seq![tok_output(), c, tok_off()]
}

/// The argument groups of the first `n` enabled connectors, in order.
pub open spec fn spec_connected_args(
    es: Seq<(Seq<u8>, DisplayDeviceProfile)>,
    n: int,
) -> Seq<Seq<u8>>
    decreases n when 0 <= n <= es.len()
{
    if n <= 0 {
        seq![]
    } else {
        spec_connected_args(es, n - 1) + spec_device_args(es[n - 1].0, es[n - 1].1)
    }
}

/// The argument groups of the first `n` disabled connectors, in order.
pub open spec fn spec_off_args_prefix(cs: Seq<Seq<u8>>, n: int) -> Seq<Seq<u8>>
    decreases n when 0 <= n <= cs.len()
{
    if n <= 0 {
        seq![]
    } else {
        spec_off_args_prefix(cs, n - 1) + spec_off_args(cs[n - 1])
    }
}

/// The whole argument list of a profile: the groups of the enabled
/// connectors, then the groups of the disabled ones.
pub open spec fn spec_generate(p: ProfileV) -> Seq<Seq<u8>> {
    spec_connected_args(p.connected_devices, p.connected_devices.len() as int)
        + spec_off_args_prefix(p.off_devices, p.off_devices.len() as int)
}

fn device_args(c: &Vec<u8>, d: &DisplayDeviceProfile) -> (g: Vec<Vec<u8>>)
    ensures
        bytes_view(g@) == spec_device_args(c@, *d),
{
    let mut g: Vec<Vec<u8>> = Vec::new();
    g.push(make_output());
    g.push(clone_bytes(c));
    if d.primary {
        g.push(make_primary());
    }
    if !(d.resolution.width == 0 && d.resolution.height == 0) {
        g.push(make_mode());
        g.push(make_dims(d.resolution.width, d.resolution.height));
    }
    if !(d.offset.x == 0 && d.offset.y == 0) {
        g.push(make_pos());
        g.push(make_dims(d.offset.x, d.offset.y));
    }
    if !d.refresh_rate.is_zero() {
        g.push(make_rate());
        g.push(make_rate_value(d.refresh_rate));
    }
    proof {
        assert(bytes_view(g@) =~= spec_device_args(c@, *d));
    }
    g
}

fn off_args(c: &Vec<u8>) -> (g: Vec<Vec<u8>>)
    ensures
        bytes_view(g@) == spec_off_args(c@),
{
    let mut g: Vec<Vec<u8>> = Vec::new();
    g.push(make_output());
    g.push(clone_bytes(c));
    g.push(make_off());
    proof {
        assert(bytes_view(g@) =~= spec_off_args(c@));
    }
    g
}

impl Profile {
    /// The ordered argument list that re-applies this layout through the
    /// external configuration tool.
    pub fn generate(&self) -> (args: Vec<Vec<u8>>)
        ensures
            bytes_view(args@) == spec_generate(self@),
    {
        let ghost es = entries_view(self.connected_devices@);
        let ghost offs = bytes_view(self.off_devices@);
        let mut args: Vec<Vec<u8>> = Vec::new();
        proof {
            assert(bytes_view(args@) =~= Seq::<Seq<u8>>::empty());
        }
        let mut k: usize = 0;
        while k < self.connected_devices.len()
            invariant
                k <= self.connected_devices@.len(),
                es == entries_view(self.connected_devices@),
                es.len() == self.connected_devices@.len(),
                offs == bytes_view(self.off_devices@),
                bytes_view(args@) == spec_connected_args(es, k as int),
            decreases self.connected_devices@.len() - k,
        {
            let e = &self.connected_devices[k];
            proof {
                assert(es[k as int] == (self.connected_devices@[k as int].0@,
                self.connected_devices@[k as int].1));
            }
            let mut g = device_args(&e.0, &e.1);
            let ghost pre = args@;
            let ghost gv = g@;
            args.append(&mut g);
            proof {
                assert(bytes_view(args@) =~= bytes_view(pre) + bytes_view(gv));
            }
            k = k + 1;
        }
        let mut k2: usize = 0;
        while k2 < self.off_devices.len()
            invariant
                k2 <= self.off_devices@.len(),
                es == entries_view(self.connected_devices@),
                es.len() == self.connected_devices@.len(),
                offs == bytes_view(self.off_devices@),
                offs.len() == self.off_devices@.len(),
                bytes_view(args@) == spec_connected_args(es, es.len() as int)
                    + spec_off_args_prefix(offs, k2 as int),
            decreases self.off_devices@.len() - k2,
        {
            proof {
                assert(offs[k2 as int] == self.off_devices@[k2 as int]@);
            }
            let mut g = off_args(&self.off_devices[k2]);
            let ghost pre = args@;
            let ghost gv = g@;
            args.append(&mut g);
            proof {
                assert(bytes_view(args@) =~= bytes_view(pre) + bytes_view(gv));
                assert(spec_connected_args(es, es.len() as int) + spec_off_args_prefix(
                    offs,
                    k2 + 1,
                ) =~= spec_connected_args(es, es.len() as int) + spec_off_args_prefix(
                    offs,
                    k2 as int,
                ) + spec_off_args(offs[k2 as int]));
            }
            k2 = k2 + 1;
        }
        args
    }
}


// ---------------------------------------------------------------------------
// The set of saved layouts.
// ---------------------------------------------------------------------------

/// The values of the stored name/profile pairs.
pub open spec fn profiles_view(s: Seq<(Vec<u8>, Profile)>) -> Seq<(Seq<u8>, ProfileV)> {
    s.map_values(|e: (Vec<u8>, Profile)| (e.0@, e.1@))
}

/// The profile stored under `name`: the first entry that carries it.
pub open spec fn spec_lookup(entries: Seq<(Seq<u8>, ProfileV)>, name: Seq<u8>) -> Option<ProfileV>
    decreases entries.len(),
{
    if entries.len() == 0 {
        None
    } else if entries[0].0 == name {
        Some(entries[0].1)
    } else {
        spec_lookup(entries.skip(1), name)
    }
}

/// Where lookup finds nothing, no entry carries the name.
pub proof fn lemma_lookup_none(entries: Seq<(Seq<u8>, ProfileV)>, name: Seq<u8>)
    requires
        spec_lookup(entries, name) is None,
    ensures
        forall|i: int| 0 <= i < entries.len() ==> (#[trigger] entries[i]).0 != name,
    decreases entries.len(),
{
    if entries.len() > 0 {
        lemma_lookup_none(entries.skip(1), name);
        assert forall|i: int| 0 <= i < entries.len() implies (#[trigger] entries[i]).0 != name by {
            if i > 0 {
                assert(entries.skip(1)[i - 1] == entries[i]);
            }
        }
    }
}

/// Where no entry carries the name, lookup finds nothing.
pub proof fn lemma_lookup_absent(entries: Seq<(Seq<u8>, ProfileV)>, name: Seq<u8>)
    requires
        forall|i: int| 0 <= i < entries.len() ==> (#[trigger] entries[i]).0 != name,
    ensures
        spec_lookup(entries, name) is None,
    decreases entries.len(),
{
    if entries.len() > 0 {
        assert forall|i: int| 0 <= i < entries.skip(1).len() implies (#[trigger] entries.skip(1)[i]).0
            != name by {
            assert(entries.skip(1)[i] == entries[i + 1]);
        }
        lemma_lookup_absent(entries.skip(1), name);
    }
}

/// Lookup finds the first entry that carries the name.
pub proof fn lemma_lookup_found(entries: Seq<(Seq<u8>, ProfileV)>, k: int)
    requires
        0 <= k < entries.len(),
        forall|i: int| 0 <= i < k ==> (#[trigger] entries[i]).0 != entries[k].0,
    ensures
        spec_lookup(entries, entries[k].0) == Some(entries[k].1),
    decreases k,
{
    if k > 0 {
        assert(entries.skip(1)[k - 1] == entries[k]);
        assert forall|i: int| 0 <= i < k - 1 implies (#[trigger] entries.skip(1)[i]).0
            != entries.skip(1)[k - 1].0 by {
            assert(entries.skip(1)[i] == entries[i + 1]);
        }
        lemma_lookup_found(entries.skip(1), k - 1);
    }
}

/// Appending an entry under a fresh name stores its profile there and
/// changes no other lookup.
pub proof fn lemma_lookup_push(
    entries: Seq<(Seq<u8>, ProfileV)>,
    m: Seq<u8>,
    q: ProfileV,
    n: Seq<u8>,
)
    requires
        spec_lookup(entries, m) is None,
    ensures
        spec_lookup(entries.push((m, q)), n) == (if n == m {
            Some(q)
        } else {
            spec_lookup(entries, n)
        }),
    decreases entries.len(),
{
    if entries.len() == 0 {
        assert(entries.push((m, q))[0] == (m, q));
        assert(entries.push((m, q)).skip(1) =~= Seq::<(Seq<u8>, ProfileV)>::empty());
    } else {
        assert(entries.push((m, q))[0] == entries[0]);
        assert(entries[0].0 != m);
        assert(spec_lookup(entries.skip(1), m) is None);
        lemma_lookup_push(entries.skip(1), m, q, n);
        assert(entries.push((m, q)).skip(1) =~= entries.skip(1).push((m, q)));
        if entries[0].0 == n {
        } else {
            assert(spec_lookup(entries.push((m, q)), n) == spec_lookup(
                entries.push((m, q)).skip(1),
                n,
            ));
            assert(spec_lookup(entries, n) == spec_lookup(entries.skip(1), n));
        }
    }
}

/// Removing the one entry that carries a name empties its lookup and
/// changes no other.
pub proof fn lemma_lookup_remove(entries: Seq<(Seq<u8>, ProfileV)>, k: int, n: Seq<u8>)
    requires
        0 <= k < entries.len(),
        forall|i: int| 0 <= i < entries.len() && i != k ==> (#[trigger] entries[i]).0
            != entries[k].0,
    ensures
        spec_lookup(entries.remove(k), n) == (if n == entries[k].0 {
            None::<ProfileV>
        } else {
            spec_lookup(entries, n)
        }),
    decreases entries.len(),
{
    if k == 0 {
        assert(entries.remove(0) =~= entries.skip(1));
        if n == entries[0].0 {
            assert forall|i: int| 0 <= i < entries.skip(1).len() implies (#[trigger] entries.skip(
                1,
            )[i]).0 != n by {
                assert(entries.skip(1)[i] == entries[i + 1]);
            }
            lemma_lookup_absent(entries.skip(1), n);
        }
    } else {
        assert forall|i: int|
            0 <= i < entries.skip(1).len() && i != k - 1 implies (#[trigger] entries.skip(
            1,
        )[i]).0 != entries.skip(1)[k - 1].0 by {
            assert(entries.skip(1)[i] == entries[i + 1]);
            assert(entries.skip(1)[k - 1] == entries[k]);
        }
        assert(entries.skip(1)[k - 1] == entries[k]);
        lemma_lookup_remove(entries.skip(1), k - 1, n);
        assert(entries.remove(k).skip(1) =~= entries.skip(1).remove(k - 1));
        assert(entries.remove(k)[0] == entries[0]);
    }
}

/// All saved layouts: profile name to profile, with unique names, in
/// insertion order.  This is the whole state that outlives one invocation.
#[derive(Clone, Debug)]
pub struct Profiles {
    pub profiles: Vec<(Vec<u8>, Profile)>,
}

impl View for Profiles {
    type V = Seq<(Seq<u8>, ProfileV)>;

    open spec fn view(&self) -> Seq<(Seq<u8>, ProfileV)> {
        profiles_view(self.profiles@)
    }
}

impl Profiles {
    /// No two entries share a name.
    pub open spec fn wf(&self) -> bool {
        forall|i: int, j: int| 0 <= i < j < self@.len() ==> (#[trigger] self@[i]).0 != (
        #[trigger] self@[j]).0
    }

    /// An empty store: what loading finds when nothing was saved yet.
    pub fn new() -> (r: Profiles)
        ensures
            r@ == Seq::<(Seq<u8>, ProfileV)>::empty(),
            r.wf(),
    {
        let r = Profiles { profiles: Vec::new() };
        proof {
            assert(r@ =~= Seq::<(Seq<u8>, ProfileV)>::empty());
        }
        r
    }

    /// The profile saved under `name`, if any.
    pub fn get(&self, name: &Vec<u8>) -> (r: Option<&Profile>)
        ensures
            match spec_lookup(self@, name@) {
                Some(p) => r is Some && r->Some_0@ == p,
                None => r is None,
            },
    {
        let ghost es = self@;
        let mut k: usize = 0;
        proof {
            assert(es.skip(0) =~= es);
        }
        while k < self.profiles.len()
            invariant
                k <= self.profiles@.len(),
                es == self@,
                es.len() == self.profiles@.len(),
                spec_lookup(es, name@) == spec_lookup(es.skip(k as int), name@),
            decreases self.profiles@.len() - k,
        {
            proof {
                assert(es.skip(k as int)[0] == es[k as int]);
                assert(es[k as int] == (self.profiles@[k as int].0@, self.profiles@[k as int].1@));
            }
            if bytes_eq(&self.profiles[k].0, name) {
                return Some(&self.profiles[k].1);
            }
            proof {
                assert(es.skip(k as int).skip(1) =~= es.skip(k + 1));
            }
            k = k + 1;
        }
        None
    }

    /// Remove what `name` carries, if anything; whether an entry went away.
    pub fn remove(&mut self, name: &Vec<u8>) -> (removed: bool)
        requires
            old(self).wf(),
        ensures
            final(self).wf(),
            spec_lookup(final(self)@, name@) is None,
            forall|n: Seq<u8>| n != name@ ==> spec_lookup(final(self)@, n) == spec_lookup(
                old(self)@,
                n,
            ),
            removed == (spec_lookup(old(self)@, name@) is Some),
    {
        let ghost es = self@;
        let mut k: usize = 0;
        while k < self.profiles.len()
            invariant
                k <= self.profiles@.len(),
                es == self@,
                es == old(self)@,
                es.len() == self.profiles@.len(),
                old(self).wf(),
                forall|i: int| 0 <= i < k ==> (#[trigger] es[i]).0 != name@,
            decreases self.profiles@.len() - k,
        {
            proof {
                assert(es[k as int] == (self.profiles@[k as int].0@, self.profiles@[k as int].1@));
            }
            if bytes_eq(&self.profiles[k].0, name) {
                proof {
                    lemma_lookup_found(es, k as int);
                    assert forall|i: int|
                        0 <= i < es.len() && i != k as int implies (#[trigger] es[i]).0
                        != es[k as int].0 by {
                        if i < k as int {
                        } else {
                            assert((k as int) < i);
                        }
                    }
                }
                self.profiles.remove(k);
                proof {
                    assert(self@ =~= es.remove(k as int));
                    assert forall|n: Seq<u8>| true implies spec_lookup(self@, n) == (if n == es[
                        k as int].0 {
                        None::<ProfileV>
                    } else {
                        spec_lookup(es, n)
                    }) by {
                        lemma_lookup_remove(es, k as int, n);
                    }
                    assert forall|i: int, j: int| 0 <= i < j < self@.len() implies (
                    #[trigger] self@[i]).0 != (#[trigger] self@[j]).0 by {
                        let pi = if i < k as int {
                            i
                        } else {
                            i + 1
                        };
                        let pj = if j < k as int {
                            j
                        } else {
                            j + 1
                        };
                        assert(self@[i] == es[pi]);
                        assert(self@[j] == es[pj]);
                    }
                }
                return true;
            }
            k = k + 1;
        }
        proof {
            lemma_lookup_absent(es, name@);
        }
        false
    }

    /// Save `p` under `name`, replacing whatever the name carried.
    pub fn insert(&mut self, name: Vec<u8>, p: Profile)
        requires
            old(self).wf(),
        ensures
            final(self).wf(),
            spec_lookup(final(self)@, name@) == Some(p@),
            forall|n: Seq<u8>| n != name@ ==> spec_lookup(final(self)@, n) == spec_lookup(
                old(self)@,
                n,
            ),
    {
        let ghost nm = name@;
        let ghost pv = p@;
        self.remove(&name);
        let ghost mid = self@;
        self.profiles.push((name, p));
        proof {
            assert(self@ =~= mid.push((nm, pv)));
            assert forall|n: Seq<u8>| true implies spec_lookup(self@, n) == (if n == nm {
                Some(pv)
            } else {
                spec_lookup(mid, n)
            }) by {
                lemma_lookup_push(mid, nm, pv, n);
            }
            lemma_lookup_none(mid, nm);
            assert forall|i: int, j: int| 0 <= i < j < self@.len() implies (#[trigger] self@[i]).0
                != (#[trigger] self@[j]).0 by {
                if j < self@.len() - 1 {
                } else {
                    assert(self@[i] == mid[i]);
                    assert(self@[j].0 == nm);
                }
            }
        }
    }

    /// The saved names, in insertion order.
    pub fn names(&self) -> (r: Vec<Vec<u8>>)
        ensures
            bytes_view(r@).len() == self@.len(),
            forall|i: int| 0 <= i < self@.len() ==> bytes_view(r@)[i] == self@[i].0,
    {
        let mut r: Vec<Vec<u8>> = Vec::new();
        let mut k: usize = 0;
        while k < self.profiles.len()
            invariant
                k <= self.profiles@.len(),
                bytes_view(r@).len() == k,
                forall|i: int| 0 <= i < k ==> bytes_view(r@)[i] == self@[i].0,
            decreases self.profiles@.len() - k,
        {
            let ghost pre = r@;
            r.push(clone_bytes(&self.profiles[k].0));
            proof {
                assert(bytes_view(r@) =~= bytes_view(pre).push(self.profiles@[k as int].0@));
                assert(self@[k as int] == (self.profiles@[k as int].0@, self.profiles@[k as int].1@));
            }
            k = k + 1;
        }
        r
    }
}


} // verus!

//! Model of the display tool's status report and the two report parsers.
//!
//! The status report is line oriented: a banner line, then one line per
//! connector followed by indented capability lines.  The grammar is strict:
//! any text that does not match it makes the whole parse fail, with no
//! partial result.

use vstd::prelude::*;

use crate::lex::eol_at;
use crate::lex::is_space;
use crate::lex::lemma_eol_at;
use crate::lex::lemma_space_end;
use crate::lex::lemma_token_end;
use crate::lex::parse_u32;
use crate::lex::skip_spaces;
use crate::lex::skip_to_eol;
use crate::lex::space_end;
use crate::lex::spec_parse_u32;
use crate::lex::spec_tag_connected;
use crate::lex::spec_tag_disconnected;
use crate::lex::spec_tag_primary;
use crate::lex::tag_connected;
use crate::lex::tag_disconnected;
use crate::lex::tag_primary;
use crate::lex::token_end;
use crate::lex::lemma_parse_u32_some;

verus! {

/// Connection state of a connector as reported on its device line.
#[derive(Clone, Copy, PartialEq, Eq, Structural, Debug)]
pub enum ConnectionState {
    Connected,
    Disconnected,
}

/// An active resolution, width by height in pixels.
#[derive(Clone, Copy, PartialEq, Eq, Structural, Debug)]
pub struct Resolution {
    pub width: u32,
    pub height: u32,
}

/// A position within the overall layout.
#[derive(Clone, Copy, PartialEq, Eq, Structural, Debug)]
pub struct Offset {
    pub x: u32,
    pub y: u32,
}

/// A decimal number `whole.frac`, the fraction carrying exactly `frac_len`
/// digits (so leading zeros of the fraction are preserved).
#[derive(Clone, Copy, PartialEq, Eq, Structural, Debug)]
pub struct Decimal {
    pub whole: u32,
    pub frac: u32,
    pub frac_len: u32,
}

impl Decimal {
    /// Well formed: the fraction fits in its written width, which a clock
    /// token keeps to at most nine digits.
    pub open spec fn wf(&self) -> bool {
        self.frac_len <= 9 && (self.frac as int) < crate::lex::pow10(self.frac_len as int)
    }

    /// The zero value, used as the sentinel for "unspecified".
    pub open spec fn spec_is_zero(&self) -> bool {
        self.whole == 0 && self.frac == 0
    }

    pub fn is_zero(&self) -> (r: bool)
        ensures
            r == self.spec_is_zero(),
    {
        self.whole == 0 && self.frac == 0
    }
}

/// One refresh rate offered on a capability line: its clock and the two
/// one-character flags (`*` current, `+` preferred).
#[derive(Clone, Copy, PartialEq, Eq, Structural, Debug)]
pub struct RefreshRate {
    pub clock: Decimal,
    pub current: bool,
    pub preferred: bool,
}

/// One advertised mode: a resolution and its refresh rates, in report order.
#[derive(Clone, Debug)]
pub struct Capability {
    pub resolution: Resolution,
    pub refresh_rates: Vec<RefreshRate>,
}

/// Mathematical value of a `Capability`.
#[verifier::ext_equal]
pub ghost struct CapabilityV {
    pub resolution: Resolution,
    pub refresh_rates: Seq<RefreshRate>,
}

impl View for Capability {
    type V = CapabilityV;

    open spec fn view(&self) -> CapabilityV {
        CapabilityV { resolution: self.resolution, refresh_rates: self.refresh_rates@ }
    }
}

/// Everything the status report says about one connector.
#[derive(Clone, Debug)]
pub struct DisplayDevice {
    /// is the display connected or not
    pub state: ConnectionState,
    /// the resolution of the display, if its line carries a geometry token
    pub resolution: Option<Resolution>,
    /// the position of the display, if its line carries a geometry token
    pub offset: Option<Offset>,
    /// is the display primary or not
    pub primary: bool,
    /// which connector the display is attached to
    pub connector: Vec<u8>,
    /// the capabilities of the display
    pub capabilities: Vec<Capability>,
}

/// Mathematical value of a `DisplayDevice`.
#[verifier::ext_equal]
pub ghost struct DisplayDeviceV {
    pub state: ConnectionState,
    pub resolution: Option<Resolution>,
    pub offset: Option<Offset>,
    pub primary: bool,
    pub connector: Seq<u8>,
    pub capabilities: Seq<CapabilityV>,
}

impl View for DisplayDevice {
    type V = DisplayDeviceV;

    open spec fn view(&self) -> DisplayDeviceV {
        DisplayDeviceV {
            state: self.state,
            resolution: self.resolution,
            offset: self.offset,
            primary: self.primary,
            connector: self.connector@,
            capabilities: caps_view(self.capabilities@),
        }
    }
}

/// The whole status report: the devices in report order.
#[derive(Clone, Debug)]
pub struct XRandrOutput {
    pub displays: Vec<DisplayDevice>,
}

impl View for XRandrOutput {
    type V = Seq<DisplayDeviceV>;

    open spec fn view(&self) -> Seq<DisplayDeviceV> {
        devs_view(self.displays@)
    }
}

/// A report that does not match the grammar.
#[derive(Clone, Copy, PartialEq, Eq, Structural, Debug)]
pub struct MalformedReport;

/// The values of a sequence of capabilities.
pub open spec fn caps_view(s: Seq<Capability>) -> Seq<CapabilityV> {
    s.map_values(|c: Capability| c@)
}

/// The values of a sequence of devices.
pub open spec fn devs_view(s: Seq<DisplayDevice>) -> Seq<DisplayDeviceV> {
    s.map_values(|d: DisplayDevice| d@)
}

/// The values of a sequence of byte strings.
pub open spec fn bytes_view(s: Seq<Vec<u8>>) -> Seq<Seq<u8>> {
    s.map_values(|c: Vec<u8>| c@)
}

// ---------------------------------------------------------------------------
// The grammar, as total functions over byte strings.  Each `spec_parse_*`
// yields the parsed value and the index of the first unconsumed byte, or
// `None` when the text does not match.  The executable parsers below return
// exactly these values.
// ---------------------------------------------------------------------------

/// A line ending at `i`: LF or CRLF.
pub open spec fn spec_line_ending(s: Seq<u8>, i: int) -> Option<int> {
    if 0 <= i < s.len() && s[i] == 10 {
        Some(i + 1)
    } else if 0 <= i && i + 1 < s.len() && s[i] == 13 && s[i + 1] == 10 {
        Some(i + 2)
    } else {
        None
    }
}

/// A connector token: one or more bytes up to the next whitespace.
pub open spec fn spec_parse_connector(s: Seq<u8>, i: int) -> Option<(Seq<u8>, int)> {
    if 0 <= i <= s.len() && token_end(s, i) > i {
        Some((s.subrange(i, token_end(s, i)), token_end(s, i)))
    } else {
        None
    }
}

/// The connection state word.
pub open spec fn spec_parse_state(s: Seq<u8>, i: int) -> Option<(ConnectionState, int)> {
    if spec_tag_connected(s, i) {
        Some((ConnectionState::Connected, i + 9))
    } else if spec_tag_disconnected(s, i) {
        Some((ConnectionState::Disconnected, i + 12))
    } else {
        None
    }
}

/// The geometry token `WxH+X+Y`.
pub open spec fn spec_parse_geometry(s: Seq<u8>, i: int) -> Option<(Resolution, Offset, int)> {
    match spec_parse_u32(s, i) {
        None => None,
        Some((w, i1)) => if i1 < s.len() && s[i1] == 120 {  // 'x'
            match spec_parse_u32(s, i1 + 1) {
                None => None,
                Some((h, i2)) => if i2 < s.len() && s[i2] == 43 {  // '+'
                    match spec_parse_u32(s, i2 + 1) {
                        None => None,
                        Some((x, i3)) => if i3 < s.len() && s[i3] == 43 {  // '+'
                            match spec_parse_u32(s, i3 + 1) {
                                None => None,
                                Some((y, i4)) => Some(
                                    (Resolution { width: w, height: h }, Offset { x, y }, i4),
                                ),
                            }
                        } else {
                            None
                        },
                    }
                } else {
                    None
                },
            }
        } else {
            None
        },
    }
}

/// A clock `digits.digits`, read as a decimal; the fraction keeps its
/// written width, which must be at most nine digits.
pub open spec fn spec_parse_clock(s: Seq<u8>, i: int) -> Option<(Decimal, int)> {
    match spec_parse_u32(s, i) {
        None => None,
        Some((whole, j)) => if j < s.len() && s[j] == 46 {  // '.'
            match spec_parse_u32(s, j + 1) {
                None => None,
                Some((frac, e)) => if e - (j + 1) <= 9 {
                    Some((Decimal { whole, frac, frac_len: (e - (j + 1)) as u32 }, e))
                } else {
                    None
                },
            }
        } else {
            None
        },
    }
}

/// One refresh-rate token: a clock, then the fixed-width `*` and `+` flags,
/// a space standing for an absent flag.
pub open spec fn spec_parse_rate(s: Seq<u8>, i: int) -> Option<(RefreshRate, int)> {
    match spec_parse_clock(s, i) {
        None => None,
        Some((clock, j)) => if j + 2 <= s.len() && (s[j] == 42 || s[j] == 32) && (s[j + 1] == 43
            || s[j + 1] == 32) {
            Some(
                (
                    RefreshRate { clock, current: s[j] == 42, preferred: s[j + 1] == 43 },
                    j + 2,
                ),
            )
        } else {
            None
        },
    }
}

pub proof fn lemma_parse_connector_some(s: Seq<u8>, i: int)
    requires
        0 <= i <= s.len(),
        spec_parse_connector(s, i) is Some,
    ensures
        i < spec_parse_connector(s, i)->Some_0.1 <= s.len(),
    decreases s.len() - i,
{
    lemma_token_end(s, i);
}

pub proof fn lemma_parse_geometry_some(s: Seq<u8>, i: int)
    requires
        0 <= i <= s.len(),
        spec_parse_geometry(s, i) is Some,
    ensures
        i < spec_parse_geometry(s, i)->Some_0.2 <= s.len(),
{
    lemma_parse_u32_some(s, i);
    let i1 = spec_parse_u32(s, i)->Some_0.1;
    lemma_parse_u32_some(s, i1 + 1);
    let i2 = spec_parse_u32(s, i1 + 1)->Some_0.1;
    lemma_parse_u32_some(s, i2 + 1);
    let i3 = spec_parse_u32(s, i2 + 1)->Some_0.1;
    lemma_parse_u32_some(s, i3 + 1);
}

pub proof fn lemma_parse_clock_some(s: Seq<u8>, i: int)
    requires
        0 <= i <= s.len(),
        spec_parse_clock(s, i) is Some,
    ensures
        i < spec_parse_clock(s, i)->Some_0.1 <= s.len(),
{
    lemma_parse_u32_some(s, i);
    let j = spec_parse_u32(s, i)->Some_0.1;
    lemma_parse_u32_some(s, j + 1);
}

/// Every clock the parser yields is well formed.
pub proof fn lemma_parse_clock_wf(s: Seq<u8>, i: int)
    requires
        0 <= i <= s.len(),
        spec_parse_clock(s, i) is Some,
    ensures
        spec_parse_clock(s, i)->Some_0.0.wf(),
{
    lemma_parse_u32_some(s, i);
    let j = spec_parse_u32(s, i)->Some_0.1;
    lemma_parse_u32_some(s, j + 1);
    let e = spec_parse_u32(s, j + 1)->Some_0.1;
    crate::lex::lemma_digits_end(s, j + 1);
    crate::lex::lemma_digits_value_bound(s, j + 1, e);
}

pub proof fn lemma_parse_rate_some(s: Seq<u8>, i: int)
    requires
        0 <= i <= s.len(),
        spec_parse_rate(s, i) is Some,
    ensures
        i < spec_parse_rate(s, i)->Some_0.1 <= s.len(),
{
    lemma_parse_clock_some(s, i);
}

/// The refresh rates of one capability line, up to the line's end;
/// the rates may be separated by spaces.
pub open spec fn spec_parse_rates(s: Seq<u8>, i: int) -> Option<(Seq<RefreshRate>, int)>
    decreases s.len() - i when 0 <= i <= s.len() via spec_parse_rates_decreases
{
    if i == s.len() || s[i] == 10 || s[i] == 13 {
        Some((seq![], i))
    } else {
        match spec_parse_rate(s, i) {
            None => None,
            Some((r, j)) => match spec_parse_rates(s, space_end(s, j)) {
                None => None,
                Some((rs, k)) => Some((seq![r] + rs, k)),
            },
        }
    }
}

#[via_fn]
proof fn spec_parse_rates_decreases(s: Seq<u8>, i: int) {
    if !(i == s.len() || s[i] == 10 || s[i] == 13) {
        if spec_parse_rate(s, i) is Some {
            let j = spec_parse_rate(s, i)->Some_0.1;
            lemma_parse_rate_some(s, i);
            lemma_space_end(s, j);
        }
    }
}

pub proof fn lemma_parse_rates_some(s: Seq<u8>, i: int)
    requires
        0 <= i <= s.len(),
        spec_parse_rates(s, i) is Some,
    ensures
        i <= spec_parse_rates(s, i)->Some_0.1 <= s.len(),
    decreases s.len() - i,
{
    if !(i == s.len() || s[i] == 10 || s[i] == 13) {
        let j = spec_parse_rate(s, i)->Some_0.1;
        lemma_parse_rate_some(s, i);
        lemma_space_end(s, j);
        lemma_parse_rates_some(s, space_end(s, j));
    }
}

/// One indented capability line: a resolution and its refresh rates.
pub open spec fn spec_parse_capability(s: Seq<u8>, i: int) -> Option<(CapabilityV, int)> {
    let i1 = space_end(s, i);
    match spec_parse_u32(s, i1) {
        None => None,
        Some((w, i2)) => if i2 < s.len() && s[i2] == 120 {  // 'x'
            match spec_parse_u32(s, i2 + 1) {
                None => None,
                Some((h, i3)) => match spec_parse_rates(s, space_end(s, i3)) {
                    None => None,
                    Some((rs, j)) => Some(
                        (
                            CapabilityV {
                                resolution: Resolution { width: w, height: h },
                                refresh_rates: rs,
                            },
                            j,
                        ),
                    ),
                },
            }
        } else {
            None
        },
    }
}

pub proof fn lemma_parse_capability_some(s: Seq<u8>, i: int)
    requires
        0 <= i <= s.len(),
        spec_parse_capability(s, i) is Some,
    ensures
        i < spec_parse_capability(s, i)->Some_0.1 <= s.len(),
{
    lemma_space_end(s, i);
    let i1 = space_end(s, i);
    lemma_parse_u32_some(s, i1);
    let i2 = spec_parse_u32(s, i1)->Some_0.1;
    lemma_parse_u32_some(s, i2 + 1);
    let i3 = spec_parse_u32(s, i2 + 1)->Some_0.1;
    lemma_space_end(s, i3);
    lemma_parse_rates_some(s, space_end(s, i3));
}

/// The capability lines that belong to the current device: every following
/// line that begins with whitespace.  Stops, consuming nothing, before a
/// line that starts a new device or at the input's end.
pub open spec fn spec_parse_capabilities(s: Seq<u8>, i: int) -> Option<(Seq<CapabilityV>, int)>
    decreases s.len() - i when 0 <= i <= s.len() via spec_parse_capabilities_decreases
{
    match spec_line_ending(s, i) {
        None => Some((seq![], i)),
        Some(k) => if k < s.len() && is_space(s[k]) {
            match spec_parse_capability(s, k) {
                None => None,
                Some((c, j)) => match spec_parse_capabilities(s, j) {
                    None => None,
                    Some((cs, e)) => Some((seq![c] + cs, e)),
                },
            }
        } else {
            Some((seq![], i))
        },
    }
}

#[via_fn]
proof fn spec_parse_capabilities_decreases(s: Seq<u8>, i: int) {
    if spec_line_ending(s, i) is Some {
        let k = spec_line_ending(s, i)->Some_0;
        if k < s.len() && is_space(s[k]) {
            if spec_parse_capability(s, k) is Some {
                lemma_parse_capability_some(s, k);
            }
        }
    }
}

pub proof fn lemma_parse_capabilities_some(s: Seq<u8>, i: int)
    requires
        0 <= i <= s.len(),
        spec_parse_capabilities(s, i) is Some,
    ensures
        i <= spec_parse_capabilities(s, i)->Some_0.1 <= s.len(),
    decreases s.len() - i,
{
    if spec_line_ending(s, i) is Some {
        let k = spec_line_ending(s, i)->Some_0;
        if k < s.len() && is_space(s[k]) {
            lemma_parse_capability_some(s, k);
            lemma_parse_capabilities_some(s, spec_parse_capability(s, k)->Some_0.1);
        }
    }
}

/// One device block: the connector line (connector, state, optional
/// "primary", optional geometry, free text up to the line's end) and its
/// capability lines.
pub open spec fn spec_parse_device(s: Seq<u8>, i: int) -> Option<(DisplayDeviceV, int)> {
    match spec_parse_connector(s, i) {
        None => None,
        Some((conn, i1)) => match spec_parse_state(s, space_end(s, i1)) {
            None => None,
            Some((st, i3)) => {
                let i4 = space_end(s, i3);
                let primary = spec_tag_primary(s, i4);
                let i5 = if primary {
                    i4 + 7
                } else {
                    i4
                };
                let i6 = space_end(s, i5);
                let geo = spec_parse_geometry(s, i6);
                let i7 = match geo {
                    Some(g) => g.2,
                    None => i6,
                };
                let i8 = eol_at(s, i7);
                match spec_parse_capabilities(s, i8) {
                    None => None,
                    Some((caps, j)) => Some(
                        (
                            DisplayDeviceV {
                                state: st,
                                resolution: match geo {
                                    Some(g) => Some(g.0),
                                    None => None,
                                },
                                offset: match geo {
                                    Some(g) => Some(g.1),
                                    None => None,
                                },
                                primary,
                                connector: conn,
                                capabilities: caps,
                            },
                            j,
                        ),
                    ),
                }
            },
        },
    }
}

pub proof fn lemma_parse_device_some(s: Seq<u8>, i: int)
    requires
        0 <= i <= s.len(),
        spec_parse_device(s, i) is Some,
    ensures
        i < spec_parse_device(s, i)->Some_0.1 <= s.len(),
{
    lemma_parse_connector_some(s, i);
    let i1 = spec_parse_connector(s, i)->Some_0.1;
    lemma_space_end(s, i1);
    let i2 = space_end(s, i1);
    let i3 = spec_parse_state(s, i2)->Some_0.1;
    lemma_space_end(s, i3);
    let i4 = space_end(s, i3);
    let i5 = if spec_tag_primary(s, i4) {
        i4 + 7
    } else {
        i4
    };
    lemma_space_end(s, i5);
    let i6 = space_end(s, i5);
    let geo = spec_parse_geometry(s, i6);
    if geo is Some {
        lemma_parse_geometry_some(s, i6);
    }
    let i7 = match geo {
        Some(g) => g.2,
        None => i6,
    };
    lemma_eol_at(s, i7);
    let i8 = eol_at(s, i7);
    lemma_parse_capabilities_some(s, i8);
}

/// The device blocks of the report, separated by line endings, consuming
/// the rest of the input; a final line ending is allowed.
pub open spec fn spec_parse_devices(s: Seq<u8>, i: int) -> Option<Seq<DisplayDeviceV>>
    decreases s.len() - i when 0 <= i <= s.len() via spec_parse_devices_decreases
{
    if i == s.len() {
        Some(seq![])
    } else {
        match spec_parse_device(s, i) {
            None => None,
            Some((d, j)) => if j == s.len() {
                Some(seq![d])
            } else {
                match spec_line_ending(s, j) {
                    None => None,
                    Some(k) => if k == s.len() {
                        Some(seq![d])
                    } else {
                        match spec_parse_devices(s, k) {
                            None => None,
                            Some(ds) => Some(seq![d] + ds),
                        }
                    },
                }
            },
        }
    }
}

#[via_fn]
proof fn spec_parse_devices_decreases(s: Seq<u8>, i: int) {
    if i != s.len() && spec_parse_device(s, i) is Some {
        lemma_parse_device_some(s, i);
    }
}

/// The whole status report: a banner line that is only consumed, then the
/// device blocks up to the input's end.
pub open spec fn spec_parse_report(s: Seq<u8>) -> Option<Seq<DisplayDeviceV>> {
    match spec_line_ending(s, eol_at(s, 0)) {
        None => None,
        Some(k) => spec_parse_devices(s, k),
    }
}

// ---------------------------------------------------------------------------
// Executable parsers.
// ---------------------------------------------------------------------------

/// Read a line ending (LF or CRLF) at `from`.
pub fn line_ending_at(s: &[u8], from: usize) -> (r: Option<usize>)
    requires
        from <= s@.len(),
    ensures
        match spec_line_ending(s@, from as int) {
            Some(k) => r == Some(k as usize),
            None => r is None,
        },
{
    if from < s.len() && s[from] == 10 {
        Some(from + 1)
    } else if s.len() - from >= 2 && s[from] == 13 && s[from + 1] == 10 {
        Some(from + 2)
    } else {
        None
    }
}

/// Read a connector token at `from`.
pub fn parse_connector(s: &[u8], from: usize) -> (r: Option<(Vec<u8>, usize)>)
    requires
        from <= s@.len(),
    ensures
        match spec_parse_connector(s@, from as int) {
            Some(p) => r is Some && r->Some_0.0@ == p.0 && r->Some_0.1 == p.1,
            None => r is None,
        },
{
    proof {
        lemma_token_end(s@, from as int);
    }
    let ghost e = token_end(s@, from as int);
    let mut v: Vec<u8> = Vec::new();
    let mut i = from;
    while i < s.len() && !(s[i] == 32 || s[i] == 9 || s[i] == 10 || s[i] == 13)
        invariant
            from <= i <= e <= s@.len(),
            e == token_end(s@, from as int),
            e == token_end(s@, i as int),
            v@ == s@.subrange(from as int, i as int),
        decreases s@.len() - i,
    {
        proof {
            lemma_token_end(s@, i + 1);
        }
        v.push(s[i]);
        proof {
            assert(v@ =~= s@.subrange(from as int, i + 1));
        }
        i = i + 1;
    }
    proof {
        assert(token_end(s@, i as int) == i as int);
    }
    if i == from {
        None
    } else {
        Some((v, i))
    }
}

/// Read the connection state word at `from`.
pub fn parse_state(s: &[u8], from: usize) -> (r: Option<(ConnectionState, usize)>)
    requires
        from <= s@.len(),
    ensures
        match spec_parse_state(s@, from as int) {
            Some(p) => r == Some((p.0, p.1 as usize)),
            None => r is None,
        },
{
    let _n = s.len();
    if tag_connected(s, from) {
        Some((ConnectionState::Connected, from + 9))
    } else if tag_disconnected(s, from) {
        Some((ConnectionState::Disconnected, from + 12))
    } else {
        None
    }
}

/// Read a geometry token `WxH+X+Y` at `from`.
pub fn parse_geometry(s: &[u8], from: usize) -> (r: Option<(Resolution, Offset, usize)>)
    requires
        from <= s@.len(),
    ensures
        match spec_parse_geometry(s@, from as int) {
            Some(p) => r == Some((p.0, p.1, p.2 as usize)),
            None => r is None,
        },
{
    let (w, i1) = match parse_u32(s, from) {
        None => return None,
        Some(p) => p,
    };
    proof {
        lemma_parse_u32_some(s@, from as int);
    }
    if !(i1 < s.len() && s[i1] == 120) {
        return None;
    }
    let (h, i2) = match parse_u32(s, i1 + 1) {
        None => return None,
        Some(p) => p,
    };
    proof {
        lemma_parse_u32_some(s@, i1 + 1);
    }
    if !(i2 < s.len() && s[i2] == 43) {
        return None;
    }
    let (x, i3) = match parse_u32(s, i2 + 1) {
        None => return None,
        Some(p) => p,
    };
    proof {
        lemma_parse_u32_some(s@, i2 + 1);
    }
    if !(i3 < s.len() && s[i3] == 43) {
        return None;
    }
    let (y, i4) = match parse_u32(s, i3 + 1) {
        None => return None,
        Some(p) => p,
    };
    Some((Resolution { width: w, height: h }, Offset { x, y }, i4))
}

/// Read a clock `digits.digits` at `from`.
pub fn parse_clock(s: &[u8], from: usize) -> (r: Option<(Decimal, usize)>)
    requires
        from <= s@.len(),
    ensures
        match spec_parse_clock(s@, from as int) {
            Some(p) => r == Some((p.0, p.1 as usize)),
            None => r is None,
        },
{
    let (whole, j) = match parse_u32(s, from) {
        None => return None,
        Some(p) => p,
    };
    proof {
        lemma_parse_u32_some(s@, from as int);
    }
    if !(j < s.len() && s[j] == 46) {
        return None;
    }
    let (frac, e) = match parse_u32(s, j + 1) {
        None => return None,
        Some(p) => p,
    };
    proof {
        lemma_parse_u32_some(s@, j + 1);
    }
    if e - (j + 1) <= 9 {
        Some((Decimal { whole, frac, frac_len: (e - (j + 1)) as u32 }, e))
    } else {
        None
    }
}

/// Read one refresh-rate token at `from`.
pub fn parse_rate(s: &[u8], from: usize) -> (r: Option<(RefreshRate, usize)>)
    requires
        from <= s@.len(),
    ensures
        match spec_parse_rate(s@, from as int) {
            Some(p) => r == Some((p.0, p.1 as usize)),
            None => r is None,
        },
{
    let (clock, j) = match parse_clock(s, from) {
        None => return None,
        Some(p) => p,
    };
    proof {
        lemma_parse_clock_some(s@, from as int);
    }
    if s.len() - j >= 2 && (s[j] == 42 || s[j] == 32) && (s[j + 1] == 43 || s[j + 1] == 32) {
        Some((RefreshRate { clock, current: s[j] == 42, preferred: s[j + 1] == 43 }, j + 2))
    } else {
        None
    }
}

/// Read the refresh rates up to the end of the current line.
pub fn parse_rates(s: &[u8], from: usize) -> (r: Option<(Vec<RefreshRate>, usize)>)
    requires
        from <= s@.len(),
    ensures
        match spec_parse_rates(s@, from as int) {
            Some(p) => r is Some && r->Some_0.0@ == p.0 && r->Some_0.1 == p.1,
            None => r is None,
        },
    decreases s@.len() - from,
{
    if from == s.len() || s[from] == 10 || s[from] == 13 {
        let v: Vec<RefreshRate> = Vec::new();
        assert(v@ =~= Seq::<RefreshRate>::empty());
        return Some((v, from));
    }
    let (rate, j) = match parse_rate(s, from) {
        None => return None,
        Some(p) => p,
    };
    proof {
        lemma_parse_rate_some(s@, from as int);
        lemma_space_end(s@, j as int);
    }
    let j2 = skip_spaces(s, j);
    match parse_rates(s, j2) {
        None => None,
        Some((mut rest, k)) => {
            rest.insert(0, rate);
            proof {
                assert(rest@ =~= seq![rate] + rest@.skip(1));
            }
            Some((rest, k))
        },
    }
}

/// Read one capability line at `from` (its first byte is indentation).
pub fn parse_capability(s: &[u8], from: usize) -> (r: Option<(Capability, usize)>)
    requires
        from <= s@.len(),
    ensures
        match spec_parse_capability(s@, from as int) {
            Some(p) => r is Some && r->Some_0.0@ == p.0 && r->Some_0.1 == p.1,
            None => r is None,
        },
{
    proof {
        lemma_space_end(s@, from as int);
    }
    let i1 = skip_spaces(s, from);
    let (w, i2) = match parse_u32(s, i1) {
        None => return None,
        Some(p) => p,
    };
    proof {
        lemma_parse_u32_some(s@, i1 as int);
    }
    if !(i2 < s.len() && s[i2] == 120) {
        return None;
    }
    let (h, i3) = match parse_u32(s, i2 + 1) {
        None => return None,
        Some(p) => p,
    };
    proof {
        lemma_parse_u32_some(s@, i2 + 1);
        lemma_space_end(s@, i3 as int);
    }
    let i4 = skip_spaces(s, i3);
    match parse_rates(s, i4) {
        None => None,
        Some((rates, j)) => Some(
            (Capability { resolution: Resolution { width: w, height: h }, refresh_rates: rates }, j),
        ),
    }
}

/// Read the capability lines that belong to the current device.
pub fn parse_capabilities(s: &[u8], from: usize) -> (r: Option<(Vec<Capability>, usize)>)
    requires
        from <= s@.len(),
    ensures
        match spec_parse_capabilities(s@, from as int) {
            Some(p) => r is Some && caps_view(r->Some_0.0@) == p.0 && r->Some_0.1 == p.1,
            None => r is None,
        },
    decreases s@.len() - from,
{
    let k = match line_ending_at(s, from) {
        None => {
            let v: Vec<Capability> = Vec::new();
            assert(caps_view(v@) =~= Seq::<CapabilityV>::empty());
            return Some((v, from));
        },
        Some(k) => k,
    };
    if !(k < s.len() && (s[k] == 32 || s[k] == 9)) {
        let v: Vec<Capability> = Vec::new();
        assert(caps_view(v@) =~= Seq::<CapabilityV>::empty());
        return Some((v, from));
    }
    let (cap, j) = match parse_capability(s, k) {
        None => return None,
        Some(p) => p,
    };
    proof {
        lemma_parse_capability_some(s@, k as int);
    }
    match parse_capabilities(s, j) {
        None => None,
        Some((mut caps, e)) => {
            caps.insert(0, cap);
            proof {
                assert(caps_view(caps@) =~= seq![cap@] + caps_view(caps@.skip(1)));
            }
            Some((caps, e))
        },
    }
}

/// Read one device block at `from`.
pub fn parse_device(s: &[u8], from: usize) -> (r: Option<(DisplayDevice, usize)>)
    requires
        from <= s@.len(),
    ensures
        match spec_parse_device(s@, from as int) {
            Some(p) => r is Some && r->Some_0.0@ == p.0 && r->Some_0.1 == p.1,
            None => r is None,
        },
{
    let _n = s.len();
    let (conn, i1) = match parse_connector(s, from) {
        None => return None,
        Some(p) => p,
    };
    proof {
        lemma_parse_connector_some(s@, from as int);
        lemma_space_end(s@, i1 as int);
    }
    let i2 = skip_spaces(s, i1);
    let (st, i3) = match parse_state(s, i2) {
        None => return None,
        Some(p) => p,
    };
    proof {
        lemma_space_end(s@, i3 as int);
    }
    let i4 = skip_spaces(s, i3);
    let primary = tag_primary(s, i4);
    let i5 = if primary {
        i4 + 7
    } else {
        i4
    };
    proof {
        lemma_space_end(s@, i5 as int);
    }
    let i6 = skip_spaces(s, i5);
    let geo = parse_geometry(s, i6);
    let i7 = match geo {
        Some(g) => {
            proof {
                lemma_parse_geometry_some(s@, i6 as int);
            }
            g.2
        },
        None => i6,
    };
    proof {
        lemma_eol_at(s@, i7 as int);
    }
    let i8 = skip_to_eol(s, i7);
    match parse_capabilities(s, i8) {
        None => None,
        Some((caps, j)) => {
            let dev = DisplayDevice {
                state: st,
                resolution: match geo {
                    Some(g) => Some(g.0),
                    None => None,
                },
                offset: match geo {
                    Some(g) => Some(g.1),
                    None => None,
                },
                primary,
                connector: conn,
                capabilities: caps,
            };
            proof {
                assert(dev@ =~= spec_parse_device(s@, from as int)->Some_0.0);
            }
            Some((dev, j))
        },
    }
}

/// Read the device blocks from `from` to the input's end.
pub fn parse_devices(s: &[u8], from: usize) -> (r: Option<Vec<DisplayDevice>>)
    requires
        from <= s@.len(),
    ensures
        match spec_parse_devices(s@, from as int) {
            Some(ds) => r is Some && devs_view(r->Some_0@) == ds,
            None => r is None,
        },
    decreases s@.len() - from,
{
    if from == s.len() {
        let v: Vec<DisplayDevice> = Vec::new();
        assert(devs_view(v@) =~= Seq::<DisplayDeviceV>::empty());
        return Some(v);
    }
    let (dev, j) = match parse_device(s, from) {
        None => return None,
        Some(p) => p,
    };
    proof {
        lemma_parse_device_some(s@, from as int);
    }
    if j == s.len() {
        let mut v: Vec<DisplayDevice> = Vec::new();
        v.push(dev);
        proof {
            assert(devs_view(v@) =~= seq![dev@]);
        }
        return Some(v);
    }
    let k = match line_ending_at(s, j) {
        None => return None,
        Some(k) => k,
    };
    if k == s.len() {
        let mut v: Vec<DisplayDevice> = Vec::new();
        v.push(dev);
        proof {
            assert(devs_view(v@) =~= seq![dev@]);
        }
        return Some(v);
    }
    match parse_devices(s, k) {
        None => None,
        Some(mut ds) => {
            ds.insert(0, dev);
            proof {
                assert(devs_view(ds@) =~= seq![dev@] + devs_view(ds@.skip(1)));
            }
            Some(ds)
        },
    }
}

impl XRandrOutput {
    /// Parse the whole status report; `MalformedReport` wherever the text
    /// leaves the grammar, with no partial result.
    pub fn parse(input: &[u8]) -> (r: Result<XRandrOutput, MalformedReport>)
        ensures
            match spec_parse_report(input@) {
                Some(ds) => r is Ok && r->Ok_0@ == ds,
                None => r is Err,
            },
    {
        let _n = input.len();
        proof {
            lemma_eol_at(input@, 0);
        }
        let e = skip_to_eol(input, 0);
        let k = match line_ending_at(input, e) {
            None => return Err(MalformedReport),
            Some(k) => k,
        };
        match parse_devices(input, k) {
            None => Err(MalformedReport),
            Some(displays) => {
                let out = XRandrOutput { displays };
                proof {
                    assert(out@ =~= spec_parse_report(input@)->Some_0);
                }
                Ok(out)
            },
        }
    }
}

/// Parse the whole status report.
pub fn parse(xrandr_output: &[u8]) -> (r: Result<XRandrOutput, MalformedReport>)
    ensures
        match spec_parse_report(xrandr_output@) {
            Some(ds) => r is Ok && r->Ok_0@ == ds,
            None => r is Err,
        },
{
    XRandrOutput::parse(xrandr_output)
}

// ---------------------------------------------------------------------------
// The active-monitor report.
// ---------------------------------------------------------------------------

/// One monitor line: `<index>: [+][*]<connector> <rest>`; only the
/// connector is kept.
pub open spec fn spec_parse_monitor_line(s: Seq<u8>, i: int) -> Option<(Seq<u8>, int)> {
    let i1 = space_end(s, i);
    match spec_parse_u32(s, i1) {
        None => None,
        Some((_idx, i2)) => if i2 < s.len() && s[i2] == 58 {  // ':'
            let i3 = space_end(s, i2 + 1);
            let i4 = if i3 < s.len() && s[i3] == 43 {
                i3 + 1
            } else {
                i3
            };
            let i5 = if i4 < s.len() && s[i4] == 42 {
                i4 + 1
            } else {
                i4
            };
            match spec_parse_connector(s, i5) {
                None => None,
                Some((c, i6)) => Some((c, eol_at(s, i6))),
            }
        } else {
            None
        },
    }
}

pub proof fn lemma_parse_monitor_line_some(s: Seq<u8>, i: int)
    requires
        0 <= i <= s.len(),
        spec_parse_monitor_line(s, i) is Some,
    ensures
        i < spec_parse_monitor_line(s, i)->Some_0.1 <= s.len(),
{
    lemma_space_end(s, i);
    let i1 = space_end(s, i);
    lemma_parse_u32_some(s, i1);
    let i2 = spec_parse_u32(s, i1)->Some_0.1;
    lemma_space_end(s, i2 + 1);
    let i3 = space_end(s, i2 + 1);
    let i4 = if i3 < s.len() && s[i3] == 43 {
        i3 + 1
    } else {
        i3
    };
    let i5 = if i4 < s.len() && s[i4] == 42 {
        i4 + 1
    } else {
        i4
    };
    lemma_parse_connector_some(s, i5);
    let i6 = spec_parse_connector(s, i5)->Some_0.1;
    lemma_eol_at(s, i6);
}

/// The monitor lines from `i` to the input's end; a final line ending is
/// allowed.
pub open spec fn spec_parse_monitors(s: Seq<u8>, i: int) -> Option<Seq<Seq<u8>>>
    decreases s.len() - i when 0 <= i <= s.len() via spec_parse_monitors_decreases
{
    if i == s.len() {
        Some(seq![])
    } else {
        match spec_parse_monitor_line(s, i) {
            None => None,
            Some((c, j)) => if j == s.len() {
                Some(seq![c])
            } else {
                match spec_line_ending(s, j) {
                    None => None,
                    Some(k) => if k == s.len() {
                        Some(seq![c])
                    } else {
                        match spec_parse_monitors(s, k) {
                            None => None,
                            Some(cs) => Some(seq![c] + cs),
                        }
                    },
                }
            },
        }
    }
}

#[via_fn]
proof fn spec_parse_monitors_decreases(s: Seq<u8>, i: int) {
    if i != s.len() && spec_parse_monitor_line(s, i) is Some {
        lemma_parse_monitor_line_some(s, i);
    }
}

/// The whole active-monitor report: a banner line that is only consumed,
/// then one monitor line per active monitor.
pub open spec fn spec_parse_active(s: Seq<u8>) -> Option<Seq<Seq<u8>>> {
    match spec_line_ending(s, eol_at(s, 0)) {
        None => None,
        Some(k) => spec_parse_monitors(s, k),
    }
}

/// Read one monitor line at `from`.
pub fn parse_monitor_line(s: &[u8], from: usize) -> (r: Option<(Vec<u8>, usize)>)
    requires
        from <= s@.len(),
    ensures
        match spec_parse_monitor_line(s@, from as int) {
            Some(p) => r is Some && r->Some_0.0@ == p.0 && r->Some_0.1 == p.1,
            None => r is None,
        },
{
    proof {
        lemma_space_end(s@, from as int);
    }
    let i1 = skip_spaces(s, from);
    let (_idx, i2) = match parse_u32(s, i1) {
        None => return None,
        Some(p) => p,
    };
    proof {
        lemma_parse_u32_some(s@, i1 as int);
    }
    if !(i2 < s.len() && s[i2] == 58) {
        return None;
    }
    proof {
        lemma_space_end(s@, i2 + 1);
    }
    let i3 = skip_spaces(s, i2 + 1);
    let i4 = if i3 < s.len() && s[i3] == 43 {
        i3 + 1
    } else {
        i3
    };
    let i5 = if i4 < s.len() && s[i4] == 42 {
        i4 + 1
    } else {
        i4
    };
    let (c, i6) = match parse_connector(s, i5) {
        None => return None,
        Some(p) => p,
    };
    proof {
        lemma_parse_connector_some(s@, i5 as int);
        lemma_eol_at(s@, i6 as int);
    }
    let j = skip_to_eol(s, i6);
    Some((c, j))
}

/// Read the monitor lines from `from` to the input's end.
pub fn parse_monitors(s: &[u8], from: usize) -> (r: Option<Vec<Vec<u8>>>)
    requires
        from <= s@.len(),
    ensures
        match spec_parse_monitors(s@, from as int) {
            Some(cs) => r is Some && bytes_view(r->Some_0@) == cs,
            None => r is None,
        },
    decreases s@.len() - from,
{
    if from == s.len() {
        let v: Vec<Vec<u8>> = Vec::new();
        assert(bytes_view(v@) =~= Seq::<Seq<u8>>::empty());
        return Some(v);
    }
    let (c, j) = match parse_monitor_line(s, from) {
        None => return None,
        Some(p) => p,
    };
    proof {
        lemma_parse_monitor_line_some(s@, from as int);
    }
    if j == s.len() {
        let mut v: Vec<Vec<u8>> = Vec::new();
        let ghost cv = c@;
        v.push(c);
        proof {
            assert(bytes_view(v@) =~= seq![cv]);
        }
        return Some(v);
    }
    let k = match line_ending_at(s, j) {
        None => return None,
        Some(k) => k,
    };
    if k == s.len() {
        let mut v: Vec<Vec<u8>> = Vec::new();
        let ghost cv = c@;
        v.push(c);
        proof {
            assert(bytes_view(v@) =~= seq![cv]);
        }
        return Some(v);
    }
    match parse_monitors(s, k) {
        None => None,
        Some(mut cs) => {
            let ghost cv = c@;
            cs.insert(0, c);
            proof {
                assert(bytes_view(cs@) =~= seq![cv] + bytes_view(cs@.skip(1)));
            }
            Some(cs)
        },
    }
}

/// Parse the active-monitor report into the active connector names, in
/// report order.
pub fn parse_active_monitors(input: &[u8]) -> (r: Result<Vec<Vec<u8>>, MalformedReport>)
    ensures
        match spec_parse_active(input@) {
            Some(cs) => r is Ok && bytes_view(r->Ok_0@) == cs,
            None => r is Err,
        },
{
    let _n = input.len();
    proof {
        lemma_eol_at(input@, 0);
    }
    let e = skip_to_eol(input, 0);
    let k = match line_ending_at(input, e) {
        None => return Err(MalformedReport),
        Some(k) => k,
    };
    match parse_monitors(input, k) {
        None => Err(MalformedReport),
        Some(cs) => Ok(cs),
    }
}

} // verus!

//! The library's global laws, stated and proved over the specification
//! functions that the executable functions' contracts are written in.

use vstd::prelude::*;

use crate::lex::dec_digits;
use crate::lex::is_digit;
use crate::lex::is_space;
use crate::lex::is_token_break;
use crate::lex::lemma_dec_digits_are_digits;
use crate::lex::lemma_parse_u32_exact;
use crate::lex::lemma_token_end_is;
use crate::lex::space_end;
use crate::lex::spec_parse_u32;
use crate::lex::spec_tag_connected;
use crate::lex::spec_tag_disconnected;
use crate::lex::spec_tag_primary;
use crate::profile::spec_build;
use crate::profile::spec_build_prefix;
use crate::profile::spec_connected_args;
use crate::profile::spec_device_args;
use crate::profile::spec_generate;
use crate::profile::spec_is_active;
use crate::profile::tok_mode;
use crate::profile::tok_off;
use crate::profile::tok_output;
use crate::profile::tok_pos;
use crate::profile::tok_primary;
use crate::profile::tok_rate;
use crate::profile::DisplayDeviceProfile;
use crate::profile::ProfileV;
use crate::xrandr_output::spec_line_ending;
use crate::xrandr_output::spec_parse_active;
use crate::xrandr_output::spec_parse_capabilities;
use crate::xrandr_output::spec_parse_connector;
use crate::xrandr_output::spec_parse_device;
use crate::xrandr_output::spec_parse_devices;
use crate::xrandr_output::spec_parse_geometry;
use crate::xrandr_output::spec_parse_report;
use crate::xrandr_output::spec_parse_state;
use crate::xrandr_output::CapabilityV;
use crate::xrandr_output::ConnectionState;
use crate::xrandr_output::DisplayDeviceV;

verus! {

/// The names of the enabled connectors of a profile.
pub open spec fn connected_names(p: ProfileV) -> Seq<Seq<u8>> {
    p.connected_devices.map_values(|e: (Seq<u8>, DisplayDeviceProfile)| e.0)
}

/// Partition law: in a profile built from a report, an active connector of
/// the report stands among the enabled names and not among the disabled
/// ones, an inactive connector the other way around — each in exactly one
/// of the two — and the profile holds no name from outside the report.
pub proof fn lemma_build_partition(devs: Seq<DisplayDeviceV>, active: Seq<Seq<u8>>)
    requires
        spec_build(devs, active) is Ok,
    ensures
        forall|i: int| #![trigger devs[i]] 0 <= i < devs.len() ==> {
            let c = devs[i].connector;
            let p = spec_build(devs, active)->Ok_0;
            &&& spec_is_active(active, c) ==> connected_names(p).contains(c)
                && !p.off_devices.contains(c)
            &&& !spec_is_active(active, c) ==> p.off_devices.contains(c) && !connected_names(
                p,
            ).contains(c)
        },
        forall|j: int|
            0 <= j < spec_build(devs, active)->Ok_0.connected_devices.len() ==> spec_is_active(
                active,
                #[trigger] spec_build(devs, active)->Ok_0.connected_devices[j].0,
            ) && exists|i: int|
                0 <= i < devs.len() && devs[i].connector == spec_build(
                    devs,
                    active,
                )->Ok_0.connected_devices[j].0,
        forall|j: int|
            0 <= j < spec_build(devs, active)->Ok_0.off_devices.len() ==> !spec_is_active(
                active,
                #[trigger] spec_build(devs, active)->Ok_0.off_devices[j],
            ) && exists|i: int|
                0 <= i < devs.len() && devs[i].connector == spec_build(
                    devs,
                    active,
                )->Ok_0.off_devices[j],
{
    lemma_build_prefix_partition(devs, active, devs.len() as int);
}

proof fn lemma_build_prefix_partition(devs: Seq<DisplayDeviceV>, active: Seq<Seq<u8>>, n: int)
    requires
        0 <= n <= devs.len(),
        spec_build_prefix(devs, active, n) is Ok,
    ensures
        forall|i: int| #![trigger devs[i]] 0 <= i < n ==> {
            let c = devs[i].connector;
            let p = spec_build_prefix(devs, active, n)->Ok_0;
            &&& spec_is_active(active, c) ==> connected_names(p).contains(c)
                && !p.off_devices.contains(c)
            &&& !spec_is_active(active, c) ==> p.off_devices.contains(c) && !connected_names(
                p,
            ).contains(c)
        },
        forall|j: int|
            0 <= j < spec_build_prefix(devs, active, n)->Ok_0.connected_devices.len()
                ==> spec_is_active(
                active,
                #[trigger] spec_build_prefix(devs, active, n)->Ok_0.connected_devices[j].0,
            ) && exists|i: int|
                0 <= i < n && devs[i].connector == spec_build_prefix(
                    devs,
                    active,
                    n,
                )->Ok_0.connected_devices[j].0,
        forall|j: int|
            0 <= j < spec_build_prefix(devs, active, n)->Ok_0.off_devices.len()
                ==> !spec_is_active(
                active,
                #[trigger] spec_build_prefix(devs, active, n)->Ok_0.off_devices[j],
            ) && exists|i: int|
                0 <= i < n && devs[i].connector == spec_build_prefix(
                    devs,
                    active,
                    n,
                )->Ok_0.off_devices[j],
    decreases n,
{
    if n > 0 {
        lemma_build_prefix_partition(devs, active, n - 1);
        let q = spec_build_prefix(devs, active, n - 1)->Ok_0;
        let p = spec_build_prefix(devs, active, n)->Ok_0;
        let d = devs[n - 1];
        if spec_is_active(active, d.connector) {
            assert(connected_names(p) =~= connected_names(q).push(d.connector));
            assert(connected_names(p)[connected_names(p).len() - 1] == d.connector);
            assert forall|i: int| #![trigger devs[i]] 0 <= i < n implies {
                let c = devs[i].connector;
                &&& spec_is_active(active, c) ==> connected_names(p).contains(c)
                    && !p.off_devices.contains(c)
                &&& !spec_is_active(active, c) ==> p.off_devices.contains(c) && !connected_names(
                    p,
                ).contains(c)
            } by {
                let c = devs[i].connector;
                if spec_is_active(active, c) {
                    if i < n - 1 {
                        let k = choose|k: int|
                            0 <= k < connected_names(q).len() && connected_names(q)[k] == c;
                        assert(connected_names(p)[k] == c);
                    }
                } else {
                    if connected_names(p).contains(c) {
                        let k = choose|k: int|
                            0 <= k < connected_names(p).len() && connected_names(p)[k] == c;
                        if k < connected_names(q).len() {
                            assert(connected_names(q)[k] == c);
                        }
                    }
                }
            }
        } else {
            assert(p.off_devices[p.off_devices.len() - 1] == d.connector);
            assert forall|i: int| #![trigger devs[i]] 0 <= i < n implies {
                let c = devs[i].connector;
                &&& spec_is_active(active, c) ==> connected_names(p).contains(c)
                    && !p.off_devices.contains(c)
                &&& !spec_is_active(active, c) ==> p.off_devices.contains(c) && !connected_names(
                    p,
                ).contains(c)
            } by {
                let c = devs[i].connector;
                assert(connected_names(p) =~= connected_names(q));
                if !spec_is_active(active, c) {
                    if i < n - 1 {
                        let k = choose|k: int|
                            0 <= k < q.off_devices.len() && q.off_devices[k] == c;
                        assert(p.off_devices[k] == c);
                    }
                } else {
                    if p.off_devices.contains(c) {
                        let k = choose|k: int|
                            0 <= k < p.off_devices.len() && p.off_devices[k] == c;
                        if k < q.off_devices.len() {
                            assert(q.off_devices[k] == c);
                        }
                    }
                }
            }
        }
    }
}

/// Every token of an enabled connector's argument group stands in the
/// generated argument list.
pub proof fn lemma_generate_contains_group(p: ProfileV, i: int, t: Seq<u8>)
    requires
        0 <= i < p.connected_devices.len(),
        spec_device_args(p.connected_devices[i].0, p.connected_devices[i].1).contains(t),
    ensures
        spec_generate(p).contains(t),
{
    lemma_connected_args_contain(p.connected_devices, p.connected_devices.len() as int, i, t);
    let a = spec_connected_args(p.connected_devices, p.connected_devices.len() as int);
    let k = choose|k: int| 0 <= k < a.len() && a[k] == t;
    assert(spec_generate(p)[k] == t);
}

proof fn lemma_connected_args_contain(
    es: Seq<(Seq<u8>, DisplayDeviceProfile)>,
    n: int,
    i: int,
    t: Seq<u8>,
)
    requires
        0 <= i < n <= es.len(),
        spec_device_args(es[i].0, es[i].1).contains(t),
    ensures
        spec_connected_args(es, n).contains(t),
    decreases n,
{
    if i == n - 1 {
        let g = spec_device_args(es[i].0, es[i].1);
        let k = choose|k: int| 0 <= k < g.len() && g[k] == t;
        assert(spec_connected_args(es, n)[spec_connected_args(es, n - 1).len() + k] == t);
    } else {
        lemma_connected_args_contain(es, n - 1, i, t);
        let a = spec_connected_args(es, n - 1);
        let k = choose|k: int| 0 <= k < a.len() && a[k] == t;
        assert(spec_connected_args(es, n)[k] == t);
    }
}

/// The six fixed tokens differ pairwise.
proof fn lemma_fixed_tokens_distinct()
    ensures
        tok_output() != tok_primary(),
        tok_output() != tok_mode(),
        tok_output() != tok_pos(),
        tok_output() != tok_rate(),
        tok_output() != tok_off(),
        tok_primary() != tok_mode(),
        tok_primary() != tok_pos(),
        tok_primary() != tok_rate(),
        tok_primary() != tok_off(),
        tok_mode() != tok_pos(),
        tok_mode() != tok_rate(),
        tok_mode() != tok_off(),
        tok_pos() != tok_rate(),
        tok_pos() != tok_off(),
        tok_rate() != tok_off(),
{
    assert(tok_output().len() == 8);
    assert(tok_primary().len() == 9);
    assert(tok_mode().len() == 6);
    assert(tok_pos().len() == 5);
    assert(tok_rate().len() == 6);
    assert(tok_off().len() == 5);
    assert(tok_mode()[2] == 109 && tok_rate()[2] == 114);
    assert(tok_pos()[2] == 112 && tok_off()[2] == 111);
}

/// The argument group of an enabled connector starts with `--output` and
/// the connector's name; it carries `--mode` exactly when the resolution is
/// not the zero sentinel and `--pos` exactly when the offset is not; and it
/// never carries `--off`.  The omission clauses set aside a connector that
/// is itself named like one of the tokens.
pub proof fn lemma_device_args_shape(c: Seq<u8>, d: DisplayDeviceProfile)
    ensures
        spec_device_args(c, d)[0] == tok_output(),
        spec_device_args(c, d)[1] == c,
        spec_device_args(c, d).contains(tok_output()),
        spec_device_args(c, d).contains(c),
        !(d.resolution.width == 0 && d.resolution.height == 0) ==> spec_device_args(c, d).contains(
            tok_mode(),
        ),
        d.resolution.width == 0 && d.resolution.height == 0 && c != tok_mode()
            ==> !spec_device_args(c, d).contains(tok_mode()),
        d.offset.x == 0 && d.offset.y == 0 && c != tok_pos() ==> !spec_device_args(c, d).contains(
            tok_pos(),
        ),
        c != tok_off() ==> !spec_device_args(c, d).contains(tok_off()),
{
    let g = spec_device_args(c, d);
    lemma_fixed_tokens_distinct();
    lemma_dec_digits_are_digits(d.resolution.width as int);
    lemma_dec_digits_are_digits(d.resolution.height as int);
    lemma_dec_digits_are_digits(d.offset.x as int);
    lemma_dec_digits_are_digits(d.offset.y as int);
    lemma_dec_digits_are_digits(d.refresh_rate.whole as int);
    assert(g[0] == tok_output());
    assert(g[1] == c);
    assert(g.contains(tok_output()));
    assert(g.contains(c));
    if !(d.resolution.width == 0 && d.resolution.height == 0) {
        let at = 2 + (if d.primary {
            1int
        } else {
            0int
        });
        assert(g[at] == tok_mode());
        assert(g.contains(tok_mode()));
    }
    if d.resolution.width == 0 && d.resolution.height == 0 && c != tok_mode() {
        assert forall|k: int| 0 <= k < g.len() implies g[k] != tok_mode() by {
            lemma_group_member(c, d, k);
        }
        if g.contains(tok_mode()) {
            let k = choose|k: int| 0 <= k < g.len() && g[k] == tok_mode();
        }
    }
    if d.offset.x == 0 && d.offset.y == 0 && c != tok_pos() {
        assert forall|k: int| 0 <= k < g.len() implies g[k] != tok_pos() by {
            lemma_group_member(c, d, k);
        }
        if g.contains(tok_pos()) {
            let k = choose|k: int| 0 <= k < g.len() && g[k] == tok_pos();
        }
    }
    if c != tok_off() {
        assert forall|k: int| 0 <= k < g.len() implies g[k] != tok_off() by {
            lemma_group_member(c, d, k);
        }
        if g.contains(tok_off()) {
            let k = choose|k: int| 0 <= k < g.len() && g[k] == tok_off();
        }
    }
}

/// Every member of an enabled connector's group is one of: `--output`, the
/// connector, `--primary`, `--mode` (only with a non-zero resolution), a
/// number token, `--pos` (only with a non-zero offset) or `--rate` (only
/// with a non-zero rate); number tokens start with a digit.
proof fn lemma_group_member(c: Seq<u8>, d: DisplayDeviceProfile, k: int)
    requires
        0 <= k < spec_device_args(c, d).len(),
    ensures
        spec_device_args(c, d)[k] == tok_output() || spec_device_args(c, d)[k] == c
            || spec_device_args(c, d)[k] == tok_primary() || (spec_device_args(c, d)[k]
            == tok_mode() && !(d.resolution.width == 0 && d.resolution.height == 0)) || (
        spec_device_args(c, d)[k] == tok_pos() && !(d.offset.x == 0 && d.offset.y == 0)) || (
        spec_device_args(c, d)[k] == tok_rate() && !d.refresh_rate.spec_is_zero()) || (
        spec_device_args(c, d)[k].len() > 0 && is_digit(spec_device_args(c, d)[k][0])),
{
    lemma_dec_digits_are_digits(d.resolution.width as int);
    lemma_dec_digits_are_digits(d.resolution.height as int);
    lemma_dec_digits_are_digits(d.offset.x as int);
    lemma_dec_digits_are_digits(d.offset.y as int);
    lemma_dec_digits_are_digits(d.refresh_rate.whole as int);
}

/// The whole pipeline — parse the status report, parse the active-monitor
/// report, build the profile, generate the arguments — as one function of
/// the two input texts.
pub open spec fn spec_pipeline(report: Seq<u8>, active_report: Seq<u8>) -> Option<Seq<Seq<u8>>> {
    match spec_parse_report(report) {
        None => None,
        Some(devs) => match spec_parse_active(active_report) {
            None => None,
            Some(act) => match spec_build(devs, act) {
                Err(_) => None,
                Ok(p) => Some(spec_generate(p)),
            },
        },
    }
}

/// Idempotence of generation: the pipeline run twice on identical input
/// texts yields identical argument sequences, token for token.
pub proof fn lemma_pipeline_deterministic(
    report1: Seq<u8>,
    active1: Seq<u8>,
    report2: Seq<u8>,
    active2: Seq<u8>,
)
    requires
        report1 == report2,
        active1 == active2,
    ensures
        spec_pipeline(report1, active1) == spec_pipeline(report2, active2),
{
}

// ---------------------------------------------------------------------------
// Round trip: a rendered connector line parses back to the values it was
// rendered from.
// ---------------------------------------------------------------------------

/// Does `t` stand in `s` at `i`?
pub open spec fn bytes_at(s: Seq<u8>, i: int, t: Seq<u8>) -> bool {
    0 <= i && i + t.len() <= s.len() && s.subrange(i, i + t.len() as int) == t
}

proof fn lemma_bytes_at_concat(s: Seq<u8>, i: int, a: Seq<u8>, b: Seq<u8>)
    requires
        bytes_at(s, i, a + b),
    ensures
        bytes_at(s, i, a),
        bytes_at(s, i + a.len(), b),
{
    assert forall|j: int| 0 <= j < a.len() implies s.subrange(i, i + a.len() as int)[j] == a[j] by {
        assert(s.subrange(i, i + (a + b).len() as int)[j] == (a + b)[j]);
    }
    assert(s.subrange(i, i + a.len() as int) =~= a);
    assert forall|j: int| 0 <= j < b.len() implies s.subrange(
        i + a.len(),
        i + a.len() + b.len() as int,
    )[j] == b[j] by {
        assert(s.subrange(i, i + (a + b).len() as int)[a.len() + j] == (a + b)[a.len() + j]);
    }
    assert(s.subrange(i + a.len(), i + a.len() + b.len() as int) =~= b);
}

proof fn lemma_bytes_at_index(s: Seq<u8>, i: int, t: Seq<u8>, j: int)
    requires
        bytes_at(s, i, t),
        0 <= j < t.len(),
    ensures
        s[i + j] == t[j],
{
    assert(s.subrange(i, i + t.len() as int)[j] == t[j]);
}

/// The word "connected".
pub open spec fn word_connected() -> Seq<u8> {
    seq![99u8, 111u8, 110u8, 110u8, 101u8, 99u8, 116u8, 101u8, 100u8]
}

/// The word "disconnected".
pub open spec fn word_disconnected() -> Seq<u8> {
    seq![100u8, 105u8, 115u8] + word_connected()
}

/// The word "primary".
pub open spec fn word_primary() -> Seq<u8> {
    seq![112u8, 114u8, 105u8, 109u8, 97u8, 114u8, 121u8]
}

/// The state word of a connector line.
pub open spec fn spec_state_word(st: ConnectionState) -> Seq<u8> {
    match st {
        ConnectionState::Connected => word_connected(),
        ConnectionState::Disconnected => word_disconnected(),
    }
}

proof fn lemma_tag_connected_at(s: Seq<u8>, i: int)
    requires
        bytes_at(s, i, word_connected()),
    ensures
        spec_tag_connected(s, i),
{
    lemma_bytes_at_index(s, i, word_connected(), 0);
    lemma_bytes_at_index(s, i, word_connected(), 1);
    lemma_bytes_at_index(s, i, word_connected(), 2);
    lemma_bytes_at_index(s, i, word_connected(), 3);
    lemma_bytes_at_index(s, i, word_connected(), 4);
    lemma_bytes_at_index(s, i, word_connected(), 5);
    lemma_bytes_at_index(s, i, word_connected(), 6);
    lemma_bytes_at_index(s, i, word_connected(), 7);
    lemma_bytes_at_index(s, i, word_connected(), 8);
}

proof fn lemma_tag_disconnected_at(s: Seq<u8>, i: int)
    requires
        bytes_at(s, i, word_disconnected()),
    ensures
        spec_tag_disconnected(s, i),
        !spec_tag_connected(s, i),
{
    lemma_bytes_at_concat(s, i, seq![100u8, 105u8, 115u8], word_connected());
    lemma_bytes_at_index(s, i, seq![100u8, 105u8, 115u8], 0);
    lemma_bytes_at_index(s, i, seq![100u8, 105u8, 115u8], 1);
    lemma_bytes_at_index(s, i, seq![100u8, 105u8, 115u8], 2);
    lemma_tag_connected_at(s, i + 3);
}

proof fn lemma_tag_primary_at(s: Seq<u8>, i: int)
    requires
        bytes_at(s, i, word_primary()),
    ensures
        spec_tag_primary(s, i),
{
    lemma_bytes_at_index(s, i, word_primary(), 0);
    lemma_bytes_at_index(s, i, word_primary(), 1);
    lemma_bytes_at_index(s, i, word_primary(), 2);
    lemma_bytes_at_index(s, i, word_primary(), 3);
    lemma_bytes_at_index(s, i, word_primary(), 4);
    lemma_bytes_at_index(s, i, word_primary(), 5);
    lemma_bytes_at_index(s, i, word_primary(), 6);
}

/// The geometry token of a connector line, with its leading space.
pub open spec fn spec_render_geometry(d: DisplayDeviceV) -> Seq<u8> {
    match (d.resolution, d.offset) {
        (Some(r), Some(o)) => seq![32u8] + dec_digits(r.width as int) + seq![120u8] + dec_digits(
            r.height as int,
        ) + seq![43u8] + dec_digits(o.x as int) + seq![43u8] + dec_digits(o.y as int),
        _ => seq![],
    }
}

/// One connector line rendered back from the values the parser extracts
/// from it: connector, state, the primary flag and the geometry.
pub open spec fn spec_render_device_line(d: DisplayDeviceV) -> Seq<u8> {
    d.connector + seq![32u8] + spec_state_word(d.state) + (if d.primary {
        seq![32u8] + word_primary()
    } else {
        seq![]
    }) + spec_render_geometry(d)
}

/// The device values that one connector line can carry: a nonempty
/// connector of non-whitespace bytes, resolution and offset present or
/// absent together, and no capability lines.
pub open spec fn renderable(d: DisplayDeviceV) -> bool {
    &&& d.connector.len() > 0
    &&& (forall|j: int| 0 <= j < d.connector.len() ==> !is_token_break(d.connector[j]))
    &&& (d.resolution is Some <==> d.offset is Some)
    &&& d.capabilities == Seq::<CapabilityV>::empty()
}

/// A geometry segment parses to exactly the rendered values.
proof fn lemma_parse_geometry_render(s: Seq<u8>, i: int, d: DisplayDeviceV)
    requires
        d.resolution is Some,
        d.offset is Some,
        bytes_at(s, i, spec_render_geometry(d)),
        i + spec_render_geometry(d).len() == s.len() || s[i + spec_render_geometry(d).len()] == 10,
    ensures
        space_end(s, i) == i + 1,
        s[i] == 32,
        is_digit(s[i + 1]),
        spec_parse_geometry(s, i + 1) == Some(
            (d.resolution->Some_0, d.offset->Some_0, i + spec_render_geometry(d).len() as int),
        ),
{
    let r = d.resolution->Some_0;
    let o = d.offset->Some_0;
    let dw = dec_digits(r.width as int);
    let dh = dec_digits(r.height as int);
    let dx = dec_digits(o.x as int);
    let dy = dec_digits(o.y as int);
    let g = spec_render_geometry(d);
    assert(g == seq![32u8] + dw + seq![120u8] + dh + seq![43u8] + dx + seq![43u8] + dy);
    lemma_dec_digits_are_digits(r.width as int);
    lemma_dec_digits_are_digits(r.height as int);
    lemma_dec_digits_are_digits(o.x as int);
    lemma_dec_digits_are_digits(o.y as int);
    let a6 = seq![32u8] + dw + seq![120u8] + dh + seq![43u8] + dx + seq![43u8];
    lemma_bytes_at_concat(s, i, a6, dy);
    let a5 = seq![32u8] + dw + seq![120u8] + dh + seq![43u8] + dx;
    lemma_bytes_at_concat(s, i, a5, seq![43u8]);
    let a4 = seq![32u8] + dw + seq![120u8] + dh + seq![43u8];
    lemma_bytes_at_concat(s, i, a4, dx);
    let a3 = seq![32u8] + dw + seq![120u8] + dh;
    lemma_bytes_at_concat(s, i, a3, seq![43u8]);
    let a2 = seq![32u8] + dw + seq![120u8];
    lemma_bytes_at_concat(s, i, a2, dh);
    let a1 = seq![32u8] + dw;
    lemma_bytes_at_concat(s, i, a1, seq![120u8]);
    lemma_bytes_at_concat(s, i, seq![32u8], dw);
    lemma_bytes_at_index(s, i, seq![32u8], 0);
    let pw = i + 1;
    let px = pw + dw.len() as int;
    let ph = px + 1;
    let pp1 = ph + dh.len() as int;
    let pox = pp1 + 1;
    let pp2 = pox + dx.len() as int;
    let poy = pp2 + 1;
    let pe = poy + dy.len() as int;
    lemma_bytes_at_index(s, px, seq![120u8], 0);
    lemma_bytes_at_index(s, pp1, seq![43u8], 0);
    lemma_bytes_at_index(s, pp2, seq![43u8], 0);
    lemma_bytes_at_index(s, pw, dw, 0);
    lemma_parse_u32_exact(s, pw, r.width as int);
    lemma_parse_u32_exact(s, ph, r.height as int);
    lemma_parse_u32_exact(s, pox, o.x as int);
    lemma_parse_u32_exact(s, poy, o.y as int);
    assert(space_end(s, pw) == pw);
    assert(space_end(s, i) == i + 1);
}

/// A rendered connector line, closed by a line ending or the input's end
/// and not followed by an indented line, parses to exactly its values.
#[verifier::rlimit(100)]
proof fn lemma_parse_device_render(s: Seq<u8>, i: int, d: DisplayDeviceV)
    requires
        renderable(d),
        bytes_at(s, i, spec_render_device_line(d)),
        i + spec_render_device_line(d).len() == s.len() || s[i + spec_render_device_line(d).len()]
            == 10,
        i + spec_render_device_line(d).len() + 1 == s.len() || (i + spec_render_device_line(
            d,
        ).len() < s.len() ==> (i + spec_render_device_line(d).len() + 1 < s.len()
            ==> !is_space(s[i + spec_render_device_line(d).len() + 1]))),
    ensures
        spec_parse_device(s, i) == Some((d, i + spec_render_device_line(d).len() as int)),
{
    let c = d.connector;
    let w = spec_state_word(d.state);
    let pr = if d.primary {
        seq![32u8] + word_primary()
    } else {
        seq![]
    };
    let g = spec_render_geometry(d);
    let line = spec_render_device_line(d);
    assert(line == c + seq![32u8] + w + pr + g);
    let e = i + line.len() as int;
    lemma_bytes_at_concat(s, i, c + seq![32u8] + w + pr, g);
    lemma_bytes_at_concat(s, i, c + seq![32u8] + w, pr);
    lemma_bytes_at_concat(s, i, c + seq![32u8], w);
    lemma_bytes_at_concat(s, i, c, seq![32u8]);
    let i1 = i + c.len() as int;
    let i2 = i1 + 1;
    let i3 = i2 + w.len() as int;
    let pg = i3 + pr.len() as int;
    // the connector token
    lemma_bytes_at_index(s, i1, seq![32u8], 0);
    assert forall|j: int| i <= j < i1 implies !is_token_break(s[j]) by {
        lemma_bytes_at_index(s, i, c, j - i);
    }
    lemma_token_end_is(s, i, i1);
    assert(spec_parse_connector(s, i) == Some((s.subrange(i, i1), i1)));
    assert(s.subrange(i, i1) == c);
    // one space, then the state word
    match d.state {
        ConnectionState::Connected => {
            lemma_tag_connected_at(s, i2);
            lemma_bytes_at_index(s, i2, w, 0);
            assert(space_end(s, i2) == i2);
            assert(space_end(s, i1) == i2);
            assert(spec_parse_state(s, i2) == Some((ConnectionState::Connected, i3)));
        },
        ConnectionState::Disconnected => {
            lemma_tag_disconnected_at(s, i2);
            lemma_bytes_at_index(s, i2, w, 0);
            assert(space_end(s, i2) == i2);
            assert(space_end(s, i1) == i2);
            assert(spec_parse_state(s, i2) == Some((ConnectionState::Disconnected, i3)));
        },
    }
    // the primary flag
    let i5 = if d.primary {
        lemma_bytes_at_concat(s, i3, seq![32u8], word_primary());
        lemma_bytes_at_index(s, i3, seq![32u8], 0);
        lemma_tag_primary_at(s, i3 + 1);
        lemma_bytes_at_index(s, i3 + 1, word_primary(), 0);
        assert(space_end(s, i3 + 1) == i3 + 1);
        assert(space_end(s, i3) == i3 + 1);
        i3 + 1 + 7
    } else {
        i3
    };
    assert(i5 == pg);
    // the geometry
    if d.resolution is Some {
        lemma_parse_geometry_render(s, pg, d);
        if !d.primary {
            assert(space_end(s, i3) == pg + 1);
            assert(!spec_tag_primary(s, pg + 1));
        }
    } else {
        assert(g == Seq::<u8>::empty());
        assert(pg == e);
        assert(space_end(s, pg) == pg);
        if !d.primary {
            assert(!spec_tag_primary(s, pg)) by {
                if e < s.len() {
                    assert(s[e] == 10);
                }
            }
        }
        assert(spec_parse_u32(s, pg) is None) by {
            if e < s.len() {
                assert(s[e] == 10);
            }
        }
        assert(spec_parse_geometry(s, pg) is None);
    }
    // the rest of the line is empty: the line ends at `e`
    assert(crate::lex::eol_at(s, e) == e);
    // no capability lines follow
    assert(spec_parse_capabilities(s, e) == Some((Seq::<CapabilityV>::empty(), e))) by {
        if e == s.len() {
            assert(spec_line_ending(s, e) is None);
        } else {
            assert(spec_line_ending(s, e) == Some(e + 1));
        }
    }
    assert(spec_parse_device(s, i) is Some);
    assert(spec_parse_device(s, i)->Some_0.1 == e);
    assert(spec_parse_device(s, i)->Some_0.0 =~= d);
}

/// A rendered device section parses back to exactly its devices.
proof fn lemma_parse_devices_render(s: Seq<u8>, i: int, devs: Seq<DisplayDeviceV>)
    requires
        0 <= i <= s.len(),
        s.subrange(i, s.len() as int) == spec_render_devices(devs),
        forall|k: int| 0 <= k < devs.len() ==> renderable(#[trigger] devs[k]),
    ensures
        spec_parse_devices(s, i) == Some(devs),
    decreases devs.len(),
{
    if devs.len() == 0 {
        assert(s.len() - i == 0);
    } else {
        let d = devs[0];
        let line = spec_render_device_line(d);
        let rest = spec_render_devices(devs.skip(1));
        assert(spec_render_devices(devs) == line + seq![10u8] + rest);
        assert(bytes_at(s, i, line + seq![10u8] + rest)) by {
            assert(s.subrange(i, i + (line + seq![10u8] + rest).len() as int) == s.subrange(
                i,
                s.len() as int,
            ));
        }
        lemma_bytes_at_concat(s, i, line + seq![10u8], rest);
        lemma_bytes_at_concat(s, i, line, seq![10u8]);
        let e = i + line.len() as int;
        lemma_bytes_at_index(s, e, seq![10u8], 0);
        if devs.len() > 1 {
            // the next line starts with a connector byte, not whitespace
            let d2 = devs[1];
            assert(rest == spec_render_device_line(d2) + seq![10u8] + spec_render_devices(
                devs.skip(1).skip(1),
            )) by {
                assert(devs.skip(1)[0] == d2);
            }
            lemma_bytes_at_concat(
                s,
                e + 1,
                spec_render_device_line(d2) + seq![10u8],
                spec_render_devices(devs.skip(1).skip(1)),
            );
            lemma_bytes_at_concat(s, e + 1, spec_render_device_line(d2), seq![10u8]);
            assert(bytes_at(s, e + 1, spec_render_device_line(d2) + seq![10u8] + spec_render_devices(devs.skip(1).skip(1))));
            lemma_bytes_at_index(s, e + 1, spec_render_device_line(d2), 0);
            assert(spec_render_device_line(d2)[0] == d2.connector[0]) by {
                assert((d2.connector + seq![32u8] + spec_state_word(d2.state))[0]
                    == d2.connector[0]);
            }
            assert(!is_space(s[e + 1]));
        } else {
            assert(rest == Seq::<u8>::empty());
            assert(e + 1 == s.len());
        }
        lemma_parse_device_render(s, i, d);
        assert(spec_line_ending(s, e) == Some(e + 1));
        assert forall|k: int| 0 <= k < devs.skip(1).len() implies renderable(
            #[trigger] devs.skip(1)[k],
        ) by {
            assert(devs.skip(1)[k] == devs[k + 1]);
        }
        assert(s.subrange(e + 1, s.len() as int) =~= rest) by {
            assert forall|j: int| 0 <= j < s.len() - e - 1 implies s.subrange(
                e + 1,
                s.len() as int,
            )[j] == rest[j] by {
                assert(s.subrange(i, s.len() as int)[e + 1 - i + j] == spec_render_devices(
                    devs,
                )[e + 1 - i + j]);
            }
        }
        lemma_parse_devices_render(s, e + 1, devs.skip(1));
        if e + 1 == s.len() {
            assert(devs.skip(1).len() == 0);
            assert(devs =~= seq![d]);
        } else {
            assert(seq![d] + devs.skip(1) =~= devs);
        }
    }
}

/// The bytes of a device section, one line per device.
pub open spec fn spec_render_devices(devs: Seq<DisplayDeviceV>) -> Seq<u8>
    decreases devs.len(),
{
    if devs.len() == 0 {
        seq![]
    } else {
        spec_render_device_line(devs[0]) + seq![10u8] + spec_render_devices(devs.skip(1))
    }
}

/// A whole rendered status report: an empty banner line, then one line per
/// device.
pub open spec fn spec_render_report(devs: Seq<DisplayDeviceV>) -> Seq<u8> {
    seq![10u8] + spec_render_devices(devs)
}

/// Round trip: the connector-line values that parsing extracts — connector,
/// state, the primary flag, resolution and offset — rendered back as a
/// report, parse again to exactly the same values, in the same order.
pub proof fn lemma_parse_render_round_trip(devs: Seq<DisplayDeviceV>)
    requires
        forall|k: int| 0 <= k < devs.len() ==> renderable(#[trigger] devs[k]),
    ensures
        spec_parse_report(spec_render_report(devs)) == Some(devs),
{
    let s = spec_render_report(devs);
    assert(s[0] == 10);
    assert(crate::lex::eol_at(s, 0) == 0);
    assert(spec_line_ending(s, 0) == Some(1int));
    assert(s.subrange(1, s.len() as int) =~= spec_render_devices(devs)) by {
        assert forall|j: int| 0 <= j < s.len() - 1 implies s.subrange(1, s.len() as int)[j]
            == spec_render_devices(devs)[j] by {
            assert(s[1 + j] == (seq![10u8] + spec_render_devices(devs))[1 + j]);
        }
    }
    lemma_parse_devices_render(s, 1, devs);
}


// ---------------------------------------------------------------------------
// Line boundaries never leak into connector tokens.
// ---------------------------------------------------------------------------

/// A clean connector token: nonempty, with no whitespace byte in it — in
/// particular, no line terminator of a preceding block.
pub open spec fn clean_connector(c: Seq<u8>) -> bool {
    c.len() > 0 && forall|j: int| 0 <= j < c.len() ==> !is_token_break(c[j])
}

proof fn lemma_devices_connectors_clean(s: Seq<u8>, i: int)
    requires
        0 <= i <= s.len(),
        spec_parse_devices(s, i) is Some,
    ensures
        forall|k: int|
            0 <= k < spec_parse_devices(s, i)->Some_0.len() ==> clean_connector(
                #[trigger] spec_parse_devices(s, i)->Some_0[k].connector,
            ),
    decreases s.len() - i,
{
    if i != s.len() {
        let ds = spec_parse_devices(s, i)->Some_0;
        let d = spec_parse_device(s, i)->Some_0.0;
        let j = spec_parse_device(s, i)->Some_0.1;
        crate::xrandr_output::lemma_parse_device_some(s, i);
        crate::lex::lemma_token_end(s, i);
        let te = crate::lex::token_end(s, i);
        assert(d.connector == s.subrange(i, te));
        assert(clean_connector(d.connector)) by {
            assert forall|t: int| 0 <= t < d.connector.len() implies !is_token_break(
                d.connector[t],
            ) by {
                assert(s.subrange(i, te)[t] == s[i + t]);
            }
        }
        if j != s.len() {
            match spec_line_ending(s, j) {
                None => {},
                Some(k2) => {
                    if k2 != s.len() {
                        lemma_devices_connectors_clean(s, k2);
                        let rest = spec_parse_devices(s, k2)->Some_0;
                        assert forall|k: int| 0 <= k < ds.len() implies clean_connector(
                            #[trigger] ds[k].connector,
                        ) by {
                            if k > 0 {
                                assert(ds[k] == rest[k - 1]);
                            }
                        }
                    }
                },
            }
        }
    }
}

/// The required line-boundary property: device blocks are split so that no
/// stray line terminator of one block reaches the next connector token —
/// every connector a parsed report holds is nonempty and free of
/// whitespace and line-ending bytes.
pub proof fn lemma_parsed_connectors_clean(s: Seq<u8>)
    requires
        spec_parse_report(s) is Some,
    ensures
        forall|k: int|
            0 <= k < spec_parse_report(s)->Some_0.len() ==> clean_connector(
                #[trigger] spec_parse_report(s)->Some_0[k].connector,
            ),
{
    let e = crate::lex::eol_at(s, 0);
    crate::lex::lemma_eol_at(s, 0);
    match spec_line_ending(s, e) {
        None => {},
        Some(k) => {
            lemma_devices_connectors_clean(s, k);
        },
    }
}


} // verus!

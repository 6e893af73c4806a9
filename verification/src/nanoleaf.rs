//! Device session logic: panel layout, display ordering, and the binary
//! per-frame wire protocol.
//!
//! The HTTP calls and the UDP socket themselves live in the unverified
//! shell; this module owns everything that can be computed: parsing the
//! device's replies, ordering panels into display indices, and encoding
//! command frames byte for byte.

use vstd::prelude::*;

use vstd::seq_lib::to_multiset_update;
use vstd::string::StringExecFns;

use crate::color::Hwb;
use crate::color::rgb8_of;
use crate::color::hwb_to_rgb8;
use crate::config::Axis;
use crate::config::Sort;
use crate::CoreError;

verus! {

/// One light panel: device-assigned id and integer layout coordinates.
#[derive(Debug, Clone, Copy, PartialEq, Eq, Structural)]
pub struct Panel {
    pub id: u16,
    pub x: i16,
    pub y: i16,
}

/// One per-frame instruction: 1-based display index, color, and the
/// device-side fade duration.
#[derive(Debug, Clone, Copy, PartialEq, Eq, Structural)]
pub struct Command {
    pub panel_no: usize,
    pub color: Hwb,
    pub transition_time: u16,
}

/// A connected device: its name and its panels. Once sorted, the panel
/// list is the read-only table from display index (position + 1) to
/// device id.
#[derive(Debug)]
pub struct Nanoleaf {
    pub name: String,
    pub panels: Vec<Panel>,
}

/// The eight wire bytes of one command: device id (big-endian), red,
/// green, blue, a reserved zero byte, and the transition time
/// (big-endian).
pub open spec fn command_bytes(id: int, c: Command) -> Seq<u8> {
    let (r, g, b) = rgb8_of(c.color);
    seq![
        (id / 256) as u8,
        (id % 256) as u8,
        r as u8,
        g as u8,
        b as u8,
        0u8,
        (c.transition_time as int / 256) as u8,
        (c.transition_time as int % 256) as u8,
    ]
}

/// The concatenated command blocks of a frame, one per command, each
/// addressed through the display-index table `panels`.
pub open spec fn commands_bytes(panels: Seq<Panel>, cmds: Seq<Command>) -> Seq<u8>
    decreases cmds.len(),
{
    if cmds.len() == 0 {
        Seq::empty()
    } else {
        commands_bytes(panels, cmds.drop_last()) + command_bytes(
            panels[cmds.last().panel_no - 1].id as int,
            cmds.last(),
        )
    }
}

/// A whole frame: the 16-bit big-endian panel count, then one block per
/// command.
pub open spec fn frame_bytes(panels: Seq<Panel>, cmds: Seq<Command>) -> Seq<u8> {
    seq![(cmds.len() as int / 256) as u8, (cmds.len() as int % 256) as u8] + commands_bytes(
        panels,
        cmds,
    )
}

proof fn lemma_commands_bytes_len(panels: Seq<Panel>, cmds: Seq<Command>)
    ensures
        commands_bytes(panels, cmds).len() == 8 * cmds.len(),
    decreases cmds.len(),
{
    if cmds.len() > 0 {
        lemma_commands_bytes_len(panels, cmds.drop_last());
    }
}

/// The device's REST port; every pairing and setup call goes here.
pub const NL_API_PORT: u16 = 16021;

/// The device's fixed UDP port for streamed color commands.
pub const NL_UDP_PORT: u16 = 60222;

/// The `auth_token` string field of a pairing reply, trailing whitespace
/// trimmed, if the reply is JSON of that shape.
pub uninterp spec fn token_field_of(s: Seq<char>) -> Option<Seq<char>>;

/// The `name` string field of a device-info reply, if the reply is JSON
/// of that shape.
pub uninterp spec fn name_field_of(s: Seq<char>) -> Option<Seq<char>>;

/// The `positionData` entries of a layout reply as (panelId, x, y)
/// triples, if the reply is JSON of that shape.
pub uninterp spec fn layout_field_of(s: Seq<char>) -> Option<Seq<(u16, i16, i16)>>;

/// Whether a piece of text is an acceptable absolute URL.
pub uninterp spec fn url_ok(s: Seq<char>) -> bool;

/// Relies on serde_json::from_str, Value::get and Value::as_str to pull
/// the `auth_token` field out of a pairing reply; the result is a
/// function of the reply text alone.
#[verifier::external_body]
fn parse_token_json(s: &str) -> (r: Option<String>)
    ensures
        r is Some <==> token_field_of(s@) is Some,
        r is Some ==> r->0@ == token_field_of(s@)->0,
{
    let v: serde_json::Value = serde_json::from_str(s).ok()?;
    let t = v.get("auth_token")?.as_str()?;
    Some(t.trim_end().to_string())
}

/// Relies on serde_json::from_str, Value::get and Value::as_str to pull
/// the `name` field out of a device-info reply; the result is a function
/// of the reply text alone.
#[verifier::external_body]
fn parse_name_json(s: &str) -> (r: Option<String>)
    ensures
        r is Some <==> name_field_of(s@) is Some,
        r is Some ==> r->0@ == name_field_of(s@)->0,
{
    let v: serde_json::Value = serde_json::from_str(s).ok()?;
    let t = v.get("name")?.as_str()?;
    Some(t.to_string())
}

/// Relies on serde_json::from_str, Value::get, Value::as_array,
/// Value::as_u64 and Value::as_i64 to pull the `positionData` entries out
/// of a layout reply; the result is a function of the reply text alone.
#[verifier::external_body]
fn parse_layout_json(s: &str) -> (r: Option<Vec<(u16, i16, i16)>>)
    ensures
        r is Some <==> layout_field_of(s@) is Some,
        r is Some ==> r->0@ == layout_field_of(s@)->0,
{
    let v: serde_json::Value = serde_json::from_str(s).ok()?;
    let arr = v.get("positionData")?.as_array()?;
    let mut out: Vec<(u16, i16, i16)> = Vec::new();
    for p in arr {
        let id = p.get("panelId")?.as_u64()? as u16;
        let x = p.get("x")?.as_i64()? as i16;
        let y = p.get("y")?.as_i64()? as i16;
        out.push((id, x, y));
    }
    Some(out)
}

/// Relies on url::Url::parse to accept or refuse a URL; acceptance is a
/// function of the text alone.
#[verifier::external_body]
fn parse_url(s: &str) -> (r: Option<url::Url>)
    ensures
        r is Some <==> url_ok(s@),
{
    url::Url::parse(s).ok()
}

#[verifier::external_type_specification]
#[verifier::external_body]
pub struct ExUrl(url::Url);

/// The REST endpoint text for one API segment and path:
/// `http://<ip>:16021/api/v1/<segment><path>`. The pairing call passes
/// `new` as the segment; every later call passes the auth token.
pub fn api_url(ip: &str, segment: &str, path: &str) -> (r: String)
    ensures
        r@ == "http://"@ + ip@ + ":16021/api/v1/"@ + segment@ + path@,
{
    let mut s = String::from_str("http://");
    s.append(ip);
    s.append(":16021/api/v1/");
    s.append(segment);
    s.append(path);
    s
}

/// Build and validate the REST endpoint for one API segment and path;
/// `None` exactly when the assembled text is not an acceptable URL.
pub fn api_endpoint(ip: &str, segment: &str, path: &str) -> (r: Option<url::Url>)
    ensures
        r is Some <==> url_ok("http://"@ + ip@ + ":16021/api/v1/"@ + segment@ + path@),
{
    let s = api_url(ip, segment, path);
    parse_url(s.as_str())
}

/// The fixed request body that switches the device into externally
/// controlled streaming mode.
pub fn stream_mode_body() -> (r: String)
    ensures
        r@ == "{\"write\": {\"command\": \"display\", \"animType\": \"extControl\", \"extControlVersion\": \"v2\"}}"@,
{
    String::from_str(
        "{\"write\": {\"command\": \"display\", \"animType\": \"extControl\", \"extControlVersion\": \"v2\"}}",
    )
}

/// The auth token carried in a pairing reply, trailing whitespace
/// trimmed; `None` exactly when the reply does not hold one.
pub fn parse_pairing_response(body: &str) -> (r: Option<String>)
    ensures
        r is Some <==> token_field_of(body@) is Some,
        r is Some ==> r->0@ == token_field_of(body@)->0,
{
    parse_token_json(body)
}

/// The device name carried in a device-info reply; `None` exactly when
/// the reply does not hold one.
pub fn parse_name_response(body: &str) -> (r: Option<String>)
    ensures
        r is Some <==> name_field_of(body@) is Some,
        r is Some ==> r->0@ == name_field_of(body@)->0,
{
    parse_name_json(body)
}

/// Turn the raw layout triples of a layout reply into panels, in reply
/// order; `None` exactly when the reply does not hold them.
pub fn parse_layout_response(body: &str) -> (r: Option<Vec<Panel>>)
    ensures
        r is Some <==> layout_field_of(body@) is Some,
        r is Some ==> {
            let raw = layout_field_of(body@)->0;
            r->0@.len() == raw.len() && (forall|i: int|
                0 <= i < raw.len() ==> #[trigger] r->0@[i] == (Panel {
                    id: raw[i].0,
                    x: raw[i].1,
                    y: raw[i].2,
                }))
        },
{
    match parse_layout_json(body) {
        None => None,
        Some(raw) => Some(panels_from_layout(&raw)),
    }
}

/// Build panels from already-extracted (panelId, x, y) triples.
pub fn panels_from_layout(raw: &Vec<(u16, i16, i16)>) -> (r: Vec<Panel>)
    ensures
        r@.len() == raw@.len(),
        forall|i: int|
            0 <= i < raw@.len() ==> #[trigger] r@[i] == (Panel {
                id: raw@[i].0,
                x: raw@[i].1,
                y: raw@[i].2,
            }),
{
    let mut out: Vec<Panel> = Vec::new();
    let mut i: usize = 0;
    while i < raw.len()
        invariant
            0 <= i <= raw@.len(),
            out@.len() == i,
            forall|k: int|
                0 <= k < i ==> #[trigger] out@[k] == (Panel {
                    id: raw@[k].0,
                    x: raw@[k].1,
                    y: raw@[k].2,
                }),
        decreases raw@.len() - i,
    {
        let (id, x, y) = raw[i];
        out.push(Panel { id, x, y });
        i += 1;
    }
    out
}

/// One coordinate turned into a sort key: ascending keeps it, descending
/// negates it.
pub open spec fn axis_key(v: int, dir: Sort) -> int {
    match dir {
        Sort::Asc => v,
        Sort::Desc => -v,
    }
}

/// The (primary, secondary) sort key of a panel under the configured axis
/// and directions.
pub open spec fn panel_key(p: Panel, axis: Axis, primary: Sort, secondary: Sort) -> (int, int) {
    match axis {
        Axis::X => (axis_key(p.x as int, primary), axis_key(p.y as int, secondary)),
        Axis::Y => (axis_key(p.y as int, primary), axis_key(p.x as int, secondary)),
    }
}

/// Lexicographic order on panel keys.
pub open spec fn key_le(a: (int, int), b: (int, int)) -> bool {
    a.0 < b.0 || (a.0 == b.0 && a.1 <= b.1)
}

/// The panel sequence is sorted by the configured key.
pub open spec fn panels_sorted(s: Seq<Panel>, axis: Axis, primary: Sort, secondary: Sort) -> bool {
    forall|i: int, j: int|
        0 <= i < j < s.len() ==> key_le(
            #[trigger] panel_key(s[i], axis, primary, secondary),
            #[trigger] panel_key(s[j], axis, primary, secondary),
        )
}

/// Insert p into an already ordered sequence, directly after every
/// element whose key is at most p's: exactly where a stable sort puts
/// a later-arriving element.
pub open spec fn insert_stable(
    s: Seq<Panel>,
    p: Panel,
    axis: Axis,
    primary: Sort,
    secondary: Sort,
) -> Seq<Panel>
    decreases s.len(),
{
    if s.len() == 0 {
        seq![p]
    } else if key_le(
        panel_key(s.last(), axis, primary, secondary),
        panel_key(p, axis, primary, secondary),
    ) {
        s.push(p)
    } else {
        insert_stable(s.drop_last(), p, axis, primary, secondary).push(s.last())
    }
}

/// The stable sort of a panel sequence by the configured key: each
/// element, in arrival order, inserted after its equals.
pub open spec fn stable_sorted(
    s: Seq<Panel>,
    axis: Axis,
    primary: Sort,
    secondary: Sort,
) -> Seq<Panel>
    decreases s.len(),
{
    if s.len() == 0 {
        Seq::empty()
    } else {
        insert_stable(
            stable_sorted(s.drop_last(), axis, primary, secondary),
            s.last(),
            axis,
            primary,
            secondary,
        )
    }
}

proof fn lemma_insert_stable_len(s: Seq<Panel>, p: Panel, axis: Axis, primary: Sort, secondary: Sort)
    ensures
        insert_stable(s, p, axis, primary, secondary).len() == s.len() + 1,
    decreases s.len(),
{
    if s.len() > 0 && !key_le(
        panel_key(s.last(), axis, primary, secondary),
        panel_key(p, axis, primary, secondary),
    ) {
        lemma_insert_stable_len(s.drop_last(), p, axis, primary, secondary);
    }
}

proof fn lemma_stable_sorted_len(s: Seq<Panel>, axis: Axis, primary: Sort, secondary: Sort)
    ensures
        stable_sorted(s, axis, primary, secondary).len() == s.len(),
    decreases s.len(),
{
    if s.len() > 0 {
        lemma_stable_sorted_len(s.drop_last(), axis, primary, secondary);
        lemma_insert_stable_len(
            stable_sorted(s.drop_last(), axis, primary, secondary),
            s.last(),
            axis,
            primary,
            secondary,
        );
    }
}

/// Stable insertion lands at the position j that splits the elements
/// with key at most p's from those strictly above it.
proof fn lemma_insert_stable_at(
    s: Seq<Panel>,
    p: Panel,
    axis: Axis,
    primary: Sort,
    secondary: Sort,
    j: int,
)
    requires
        0 <= j <= s.len(),
        forall|k: int|
            j <= k < s.len() ==> !key_le(
                #[trigger] panel_key(s[k], axis, primary, secondary),
                panel_key(p, axis, primary, secondary),
            ),
        j > 0 ==> key_le(
            panel_key(s[j - 1], axis, primary, secondary),
            panel_key(p, axis, primary, secondary),
        ),
    ensures
        insert_stable(s, p, axis, primary, secondary) == s.take(j) + seq![p] + s.skip(j),
    decreases s.len(),
{
    if j == s.len() {
        if s.len() == 0 {
            assert(s.take(j) + seq![p] + s.skip(j) =~= seq![p]);
        } else {
            assert(s[j - 1] == s.last());
            assert(s.take(j) + seq![p] + s.skip(j) =~= s.push(p));
        }
    } else {
        assert(!key_le(
            panel_key(s[s.len() - 1], axis, primary, secondary),
            panel_key(p, axis, primary, secondary),
        ));
        assert(forall|k: int|
            j <= k < s.drop_last().len() ==> !key_le(
                #[trigger] panel_key(s.drop_last()[k], axis, primary, secondary),
                panel_key(p, axis, primary, secondary),
            ));
        if j > 0 {
            assert(s.drop_last()[j - 1] == s[j - 1]);
        }
        lemma_insert_stable_at(s.drop_last(), p, axis, primary, secondary, j);
        assert((s.drop_last().take(j) + seq![p] + s.drop_last().skip(j)).push(s.last()) =~= s.take(
            j,
        ) + seq![p] + s.skip(j));
    }
}

fn panel_le(a: &Panel, b: &Panel, axis: Axis, primary: Sort, secondary: Sort) -> (r: bool)
    ensures
        r == key_le(
            panel_key(*a, axis, primary, secondary),
            panel_key(*b, axis, primary, secondary),
        ),
{
    let (a0, a1): (i32, i32) = match axis {
        Axis::X => (a.x as i32, a.y as i32),
        Axis::Y => (a.y as i32, a.x as i32),
    };
    let (b0, b1): (i32, i32) = match axis {
        Axis::X => (b.x as i32, b.y as i32),
        Axis::Y => (b.y as i32, b.x as i32),
    };
    let (a0, b0): (i32, i32) = match primary {
        Sort::Asc => (a0, b0),
        Sort::Desc => (-a0, -b0),
    };
    let (a1, b1): (i32, i32) = match secondary {
        Sort::Asc => (a1, b1),
        Sort::Desc => (-a1, -b1),
    };
    a0 < b0 || (a0 == b0 && a1 <= b1)
}

proof fn lemma_swap_preserves_multiset<A>(s: Seq<A>, i: int, j: int)
    requires
        0 <= i < s.len(),
        0 <= j < s.len(),
        i != j,
    ensures
        s.update(i, s[j]).update(j, s[i]).to_multiset() == s.to_multiset(),
{
    broadcast use to_multiset_update;
    broadcast use vstd::seq_lib::to_multiset_contains;
    broadcast use vstd::multiset::group_multiset_axioms;
    broadcast use vstd::multiset::group_multiset_properties;

    let s1 = s.update(i, s[j]);
    assert(s1[j] == s[j]);
    assert(s.contains(s[i]));
    assert(s.to_multiset().count(s[i]) > 0);
    assert(s1.to_multiset() == s.to_multiset().insert(s[j]).remove(s[i]));
    assert(s1.update(j, s[i]).to_multiset() == s1.to_multiset().insert(s[i]).remove(s[j]));
    assert(s1.update(j, s[i]).to_multiset() =~= s.to_multiset());
}

impl Nanoleaf {
    /// Assemble a session handle from values the shell obtained during
    /// pairing and layout retrieval.
    pub fn new(name: String, panels: Vec<Panel>) -> (nl: Nanoleaf)
        ensures
            nl.name == name,
            nl.panels == panels,
    {
        Nanoleaf { name, panels }
    }

    /// Sort the panels by the configured axis and directions; afterwards
    /// position i holds the panel with display index i + 1. The result is
    /// exactly the stable sort of the panel list: the set is unchanged,
    /// the order follows the key, and panels with equal coordinates keep
    /// their arrival order.
    pub fn sort_panels(&mut self, axis: Axis, primary: Sort, secondary: Sort)
        ensures
            final(self).panels@ == stable_sorted(old(self).panels@, axis, primary, secondary),
            panels_sorted(final(self).panels@, axis, primary, secondary),
            final(self).panels@.to_multiset() == old(self).panels@.to_multiset(),
            final(self).panels@.len() == old(self).panels@.len(),
            final(self).name == old(self).name,
    {
        let ghost orig = self.panels@;
        proof {
            broadcast use vstd::seq_lib::to_multiset_len;

            assert(stable_sorted(orig.take(0), axis, primary, secondary) =~= Seq::<
                Panel,
            >::empty());
            assert(stable_sorted(orig.take(0), axis, primary, secondary) + orig.subrange(
                0,
                orig.len() as int,
            ) =~= orig);
        }
        let n = self.panels.len();
        let mut i: usize = 0;
        while i < n
            invariant
                n == self.panels@.len(),
                n == orig.len(),
                i <= n,
                self.name == old(self).name,
                orig == old(self).panels@,
                self.panels@.to_multiset() == orig.to_multiset(),
                self.panels@ == stable_sorted(orig.take(i as int), axis, primary, secondary)
                    + orig.subrange(i as int, n as int),
                forall|a: int, b: int|
                    0 <= a < b < i ==> key_le(
                        #[trigger] panel_key(self.panels@[a], axis, primary, secondary),
                        #[trigger] panel_key(self.panels@[b], axis, primary, secondary),
                    ),
            decreases n - i,
        {
            let ghost sp = stable_sorted(orig.take(i as int), axis, primary, secondary);
            let ghost m = orig[i as int];
            proof {
                lemma_stable_sorted_len(orig.take(i as int), axis, primary, secondary);
                assert(sp.len() == i);
                assert(self.panels@ =~= sp.take(i as int) + seq![m] + sp.skip(i as int)
                    + orig.subrange(i + 1, n as int));
            }
            let mut j: usize = i;
            while j > 0 && !panel_le(&self.panels[j - 1], &self.panels[j], axis, primary, secondary)
                invariant
                    n == self.panels@.len(),
                    0 <= j <= i < n,
                    n == orig.len(),
                    self.name == old(self).name,
                    orig == old(self).panels@,
                    sp == stable_sorted(orig.take(i as int), axis, primary, secondary),
                    sp.len() == i,
                    m == orig[i as int],
                    self.panels@.to_multiset() == orig.to_multiset(),
                    self.panels@ == sp.take(j as int) + seq![m] + sp.skip(j as int)
                        + orig.subrange(i + 1, n as int),
                    forall|k: int|
                        j <= k < i ==> !key_le(
                            #[trigger] panel_key(sp[k], axis, primary, secondary),
                            panel_key(m, axis, primary, secondary),
                        ),
                    forall|a: int, b: int|
                        0 <= a < b <= i && b != j ==> key_le(
                            #[trigger] panel_key(self.panels@[a], axis, primary, secondary),
                            #[trigger] panel_key(self.panels@[b], axis, primary, secondary),
                        ),
                decreases j,
            {
                let ghost before = self.panels@;
                proof {
                    assert(before[j as int] == m);
                    assert(before[j - 1] == sp[j - 1]);
                }
                let pa = self.panels[j - 1];
                let pb = self.panels[j];
                self.panels.set(j - 1, pb);
                self.panels.set(j, pa);
                proof {
                    lemma_swap_preserves_multiset(before, j - 1, j as int);
                    assert(self.panels@ =~= sp.take(j - 1) + seq![m] + sp.skip(j - 1)
                        + orig.subrange(i + 1, n as int));
                }
                j -= 1;
            }
            proof {
                assert(self.panels@[j as int] == m);
                if j > 0 {
                    assert(self.panels@[j - 1] == sp[j - 1]);
                }
                lemma_insert_stable_at(sp, m, axis, primary, secondary, j as int);
                assert(self.panels@ == insert_stable(sp, m, axis, primary, secondary)
                    + orig.subrange(i + 1, n as int));
                assert(orig.take(i + 1).drop_last() =~= orig.take(i as int));
                assert(orig.take(i + 1).last() == m);
                assert(stable_sorted(orig.take(i + 1), axis, primary, secondary) == insert_stable(
                    sp,
                    m,
                    axis,
                    primary,
                    secondary,
                ));
            }
            i += 1;
        }
        proof {
            assert(orig.take(n as int) =~= orig);
            assert(self.panels@ =~= stable_sorted(orig, axis, primary, secondary));
        }
    }

    /// Encode a frame for the wire. A display index outside
    /// 1..=panel_count is an upstream invariant bug: the frame is refused
    /// with a contract error and nothing is encoded. On success the buffer
    /// is exactly the frame layout: 2 + 8 * n bytes.
    pub fn run_commands_bytes(&self, commands: &Vec<Command>) -> (r: Result<Vec<u8>, CoreError>)
        requires
            commands@.len() <= u16::MAX,
            forall|i: int| 0 <= i < commands@.len() ==> (#[trigger] commands@[i]).color.wf(),
        ensures
            r is Ok <==> (forall|i: int|
                0 <= i < commands@.len() ==> 1 <= (#[trigger] commands@[i]).panel_no
                    <= self.panels@.len()),
            r is Ok ==> r->Ok_0@ == frame_bytes(self.panels@, commands@),
            r is Ok ==> r->Ok_0@.len() == 2 + 8 * commands@.len(),
            r is Err ==> r == Err::<Vec<u8>, CoreError>(CoreError::Contract),
    {
        let n = commands.len();
        let mut buf: Vec<u8> = Vec::new();
        buf.push((n / 256) as u8);
        buf.push((n % 256) as u8);
        let ghost header = seq![(n as int / 256) as u8, (n as int % 256) as u8];
        assert(buf@ =~= header + commands_bytes(self.panels@, commands@.take(0)));
        let mut i: usize = 0;
        while i < n
            invariant
                n == commands@.len(),
                n <= u16::MAX,
                0 <= i <= n,
                forall|k: int| 0 <= k < n ==> (#[trigger] commands@[k]).color.wf(),
                forall|k: int|
                    0 <= k < i ==> 1 <= (#[trigger] commands@[k]).panel_no <= self.panels@.len(),
                header == seq![(n as int / 256) as u8, (n as int % 256) as u8],
                buf@ == header + commands_bytes(self.panels@, commands@.take(i as int)),
            decreases n - i,
        {
            let c = commands[i];
            if c.panel_no < 1 || c.panel_no > self.panels.len() {
                return Err(CoreError::Contract);
            }
            let id = self.panels[c.panel_no - 1].id;
            let (red, green, blue) = hwb_to_rgb8(&c.color);
            buf.push((id / 256) as u8);
            buf.push((id % 256) as u8);
            buf.push(red);
            buf.push(green);
            buf.push(blue);
            buf.push(0);
            buf.push((c.transition_time / 256) as u8);
            buf.push((c.transition_time % 256) as u8);
            proof {
                let taken = commands@.take(i + 1);
                assert(taken.drop_last() =~= commands@.take(i as int));
                assert(taken.last() == commands@[i as int]);
                assert(buf@ =~= header + commands_bytes(self.panels@, taken));
            }
            i += 1;
        }
        proof {
            assert(commands@.take(n as int) =~= commands@);
            lemma_commands_bytes_len(self.panels@, commands@);
            assert(buf@ =~= frame_bytes(self.panels@, commands@));
        }
        Ok(buf)
    }
}

} // verus!

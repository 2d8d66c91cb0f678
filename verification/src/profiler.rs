//! Hierarchical span profiler. Spans accumulate into a tree of named nodes
//! keyed by their ancestor path; each node keeps a bounded ring of
//! `(timestamp_ms, duration_us)` samples over a rolling window, and reports
//! recompute totals from the samples still in the window.
//!
//! Node 0 is the `tick` root (simulation spans), node 1 the `frame` root
//! (externally timed spans). Times are passed in as microsecond readings of
//! a monotone clock; timestamps are milliseconds since the profiler's epoch.

use vstd::prelude::*;
use std::collections::VecDeque;
use vstd::string::*;
use crate::text::{decimal, digit_char, push_decimal, str_eq};

verus! {

/// Rolling window, in milliseconds.
pub const WINDOW_MS: u32 = 60_000;
/// Samples kept per node; the oldest is dropped beyond this.
pub const SAMPLES_PER_NODE: usize = 4096;
/// Nodes in all, roots included; further names record into their parent.
pub const MAX_NODES: usize = 256;

/// Index of a node in the tree.
pub type NodeId = u16;

/// Root of the simulation spans.
pub const ROOT_TICK: NodeId = 0;
/// Root of the externally timed spans.
pub const ROOT_FRAME: NodeId = 1;

/// One node: its name, parent, children (in creation order) and samples
/// (oldest first).
pub struct Node {
    pub name: String,
    pub parent: Option<NodeId>,
    pub children: Vec<NodeId>,
    pub samples: VecDeque<(u32, u32)>,
}

/// A node as a value: name, parent, children, samples.
pub type NodeModel = (Seq<char>, Option<NodeId>, Seq<NodeId>, Seq<(u32, u32)>);

/// The value of a node.
pub open spec fn node_model(n: Node) -> NodeModel {
    (n.name@, n.parent, n.children@, n.samples@)
}

/// The value of a node list.
pub open spec fn tree_model(nodes: Seq<Node>) -> Seq<NodeModel> {
    nodes.map_values(|n: Node| node_model(n))
}

/// The first child of `parent` named `name`, if any (searching children
/// from position `k` on).
pub open spec fn find_child_from(t: Seq<NodeModel>, parent: int, name: Seq<char>, k: int) -> Option<NodeId>
    decreases t[parent].2.len() - k,
{
    if k < 0 || k >= t[parent].2.len() {
        None
    } else if t[t[parent].2[k] as int].0 == name {
        Some(t[parent].2[k])
    } else {
        find_child_from(t, parent, name, k + 1)
    }
}

/// The child of `parent` named `name`, created when missing (and when the
/// node cap allows; otherwise `parent` itself stands in for it).
pub open spec fn ensure_child_spec(t: Seq<NodeModel>, parent: int, name: Seq<char>) -> (Seq<NodeModel>, NodeId) {
    match find_child_from(t, parent, name, 0) {
        Some(c) => (t, c),
        None => if t.len() >= MAX_NODES {
            (t, parent as NodeId)
        } else {
            let id = t.len() as NodeId;
            let p = t[parent];
            (t.update(parent, (p.0, p.1, p.2.push(id), p.3)).push((name, Some(parent as NodeId), Seq::empty(), Seq::empty())), id)
        },
    }
}

/// Samples after appending `s` to a ring of at most `SAMPLES_PER_NODE`.
pub open spec fn ring_push(samples: Seq<(u32, u32)>, s: (u32, u32)) -> Seq<(u32, u32)> {
    if samples.len() == SAMPLES_PER_NODE {
        samples.drop_first().push(s)
    } else {
        samples.push(s)
    }
}

/// The tree after recording sample `s` into node `id`.
pub open spec fn add_sample_spec(t: Seq<NodeModel>, id: int, s: (u32, u32)) -> Seq<NodeModel> {
    let n = t[id];
    t.update(id, (n.0, n.1, n.2, ring_push(n.3, s)))
}

/// Well-formed tree: the two roots exist, at most `MAX_NODES` nodes, every
/// child comes after its parent, and rings respect their cap.
pub open spec fn tree_wf(t: Seq<NodeModel>) -> bool {
    &&& 2 <= t.len() <= MAX_NODES
    &&& forall|i: int, k: int| 0 <= i < t.len() && 0 <= k < t[i].2.len() ==>
        i < #[trigger] t[i].2[k] < t.len()
    &&& forall|i: int| 0 <= i < t.len() ==> (#[trigger] t[i]).3.len() <= SAMPLES_PER_NODE
}

proof fn lemma_tree_at(nodes: Seq<Node>, i: int)
    requires
        0 <= i < nodes.len(),
    ensures
        tree_model(nodes).len() == nodes.len(),
        tree_model(nodes)[i] == node_model(nodes[i]),
{
}

proof fn lemma_find_child(t: Seq<NodeModel>, parent: int, name: Seq<char>, k: int)
    requires
        tree_wf(t),
        0 <= parent < t.len(),
        0 <= k,
    ensures
        find_child_from(t, parent, name, k) matches Some(c) ==> parent < c < t.len() && t[c as int].0 == name,
    decreases t[parent].2.len() - k,
{
    if k < t[parent].2.len() {
        assert(parent < t[parent].2[k] < t.len());
        lemma_find_child(t, parent, name, k + 1);
    }
}

proof fn lemma_ensure_child_wf(t: Seq<NodeModel>, parent: int, name: Seq<char>)
    requires
        tree_wf(t),
        0 <= parent < t.len(),
    ensures
        tree_wf(ensure_child_spec(t, parent, name).0),
        ensure_child_spec(t, parent, name).1 < ensure_child_spec(t, parent, name).0.len(),
        ensure_child_spec(t, parent, name).0.len() >= t.len(),
{
    lemma_find_child(t, parent, name, 0);
    let r = ensure_child_spec(t, parent, name);
    if find_child_from(t, parent, name, 0) is None && t.len() < MAX_NODES {
        let t2 = r.0;
        assert forall|i: int, k: int| 0 <= i < t2.len() && 0 <= k < t2[i].2.len() implies
            i < #[trigger] t2[i].2[k] < t2.len() by {
            if i < t.len() && i != parent {
                assert(t2[i] == t[i]);
            } else if i == parent {
                if k < t[parent].2.len() {
                    assert(t2[i].2[k] == t[parent].2[k]);
                }
            }
        }
        assert forall|i: int| 0 <= i < t2.len() implies (#[trigger] t2[i]).3.len() <= SAMPLES_PER_NODE by {
            if i < t.len() && i != parent {
                assert(t2[i] == t[i]);
            }
        }
    }
}

proof fn lemma_add_sample_wf(t: Seq<NodeModel>, id: int, s: (u32, u32))
    requires
        tree_wf(t),
        0 <= id < t.len(),
    ensures
        tree_wf(add_sample_spec(t, id, s)),
        add_sample_spec(t, id, s).len() == t.len(),
{
    let t2 = add_sample_spec(t, id, s);
    assert forall|i: int, k: int| 0 <= i < t2.len() && 0 <= k < t2[i].2.len() implies
        i < #[trigger] t2[i].2[k] < t2.len() by {
        if i != id {
            assert(t2[i] == t[i]);
        }
    }
    assert forall|i: int| 0 <= i < t2.len() implies (#[trigger] t2[i]).3.len() <= SAMPLES_PER_NODE by {
        if i != id {
            assert(t2[i] == t[i]);
        }
    }
}

/// The non-empty parts of `path` split at `.`, in order, given that the
/// part under way so far is `cur`.
pub open spec fn split_parts(path: Seq<char>, cur: Seq<char>) -> Seq<Seq<char>>
    decreases path.len(),
{
    if path.len() == 0 {
        if cur.len() > 0 { seq![cur] } else { Seq::empty() }
    } else if path[0] == '.' {
        (if cur.len() > 0 { seq![cur] } else { Seq::empty() }) + split_parts(path.drop_first(), Seq::empty())
    } else {
        split_parts(path.drop_first(), cur.push(path[0]))
    }
}

/// The non-empty `.`-separated parts of a dotted path.
pub open spec fn path_parts(path: Seq<char>) -> Seq<Seq<char>> {
    split_parts(path, Seq::empty())
}

/// The tree and node reached from `node` by ensuring each part in turn as
/// a child.
pub open spec fn descend(t: Seq<NodeModel>, node: int, parts: Seq<Seq<char>>) -> (Seq<NodeModel>, NodeId)
    decreases parts.len(),
{
    if parts.len() == 0 {
        (t, node as NodeId)
    } else {
        let r = ensure_child_spec(t, node, parts[0]);
        descend(r.0, r.1 as int, parts.drop_first())
    }
}

/// The tree after recording `(ts, dur)` at the node a dotted path names
/// under `root`.
pub open spec fn record_path_spec(t: Seq<NodeModel>, root: int, path: Seq<char>, s: (u32, u32)) -> Seq<NodeModel> {
    let r = descend(t, root, path_parts(path));
    add_sample_spec(r.0, r.1 as int, s)
}

proof fn lemma_descend_push(t: Seq<NodeModel>, node: int, parts: Seq<Seq<char>>, p: Seq<char>)
    requires
        tree_wf(t),
        0 <= node < t.len(),
    ensures
        descend(t, node, parts.push(p)) == ({
            let r = descend(t, node, parts);
            ensure_child_spec(r.0, r.1 as int, p)
        }),
        tree_wf(descend(t, node, parts).0),
        descend(t, node, parts).1 < descend(t, node, parts).0.len(),
    decreases parts.len(),
{
    if parts.len() == 0 {
        assert(parts.push(p).drop_first() =~= Seq::<Seq<char>>::empty());
        assert(parts.push(p)[0] == p);
        let r = ensure_child_spec(t, node, p);
        assert(descend(r.0, r.1 as int, Seq::empty()) == (r.0, r.1));
        assert((node as NodeId) as int == node);
    } else {
        lemma_ensure_child_wf(t, node, parts[0]);
        let r = ensure_child_spec(t, node, parts[0]);
        lemma_descend_push(r.0, r.1 as int, parts.drop_first(), p);
        assert(parts.push(p).drop_first() =~= parts.drop_first().push(p));
    }
}

proof fn lemma_split_step(path: Seq<char>, i: int, cur: Seq<char>)
    requires
        0 <= i < path.len(),
    ensures
        path[i] == '.' ==> split_parts(path.skip(i), cur) == (if cur.len() > 0 { seq![cur] } else { Seq::empty() })
            + split_parts(path.skip(i + 1), Seq::empty()),
        path[i] != '.' ==> split_parts(path.skip(i), cur) == split_parts(path.skip(i + 1), cur.push(path[i])),
{
    assert(path.skip(i).drop_first() =~= path.skip(i + 1));
    assert(path.skip(i)[0] == path[i]);
}

/// A ring with its samples older than `cutoff` dropped from the front.
pub open spec fn drop_stale(s: Seq<(u32, u32)>, cutoff: u32) -> Seq<(u32, u32)>
    decreases s.len(),
{
    if s.len() > 0 && s[0].0 < cutoff {
        drop_stale(s.drop_first(), cutoff)
    } else {
        s
    }
}

/// The tree with every ring pruned to samples at or after `cutoff`.
pub open spec fn pruned(t: Seq<NodeModel>, cutoff: u32) -> Seq<NodeModel> {
    Seq::new(t.len(), |i: int| (t[i].0, t[i].1, t[i].2, drop_stale(t[i].3, cutoff)))
}

/// The cutoff of the rolling window ending at `now_ms`.
pub open spec fn window_cutoff(now_ms: u32) -> u32 {
    if now_ms > WINDOW_MS { (now_ms - WINDOW_MS) as u32 } else { 0 }
}

proof fn lemma_drop_stale_len(s: Seq<(u32, u32)>, cutoff: u32)
    ensures
        drop_stale(s, cutoff).len() <= s.len(),
    decreases s.len(),
{
    if s.len() > 0 && s[0].0 < cutoff {
        lemma_drop_stale_len(s.drop_first(), cutoff);
    }
}

/// A character as it appears inside a JSON string literal.
pub open spec fn json_char(c: char) -> Seq<char> {
    if c == '"' {
        seq!['\\', '"']
    } else if c == '\\' {
        seq!['\\', '\\']
    } else if c == '\n' {
        seq!['\\', 'n']
    } else if c == '\r' {
        seq!['\\', 'r']
    } else if c == '\t' {
        seq!['\\', 't']
    } else {
        seq![c]
    }
}

/// A text escaped for a JSON string literal (quotes, backslashes, newline,
/// carriage return and tab).
pub open spec fn json_escape(s: Seq<char>) -> Seq<char>
    decreases s.len(),
{
    if s.len() == 0 {
        Seq::empty()
    } else {
        json_escape(s.drop_last()) + json_char(s.last())
    }
}

/// Sum of the durations of a ring.
pub open spec fn total_us(s: Seq<(u32, u32)>) -> nat
    decreases s.len(),
{
    if s.len() == 0 {
        0
    } else {
        total_us(s.drop_last()) + s.last().1 as nat
    }
}

/// Time covered by a ring at `now_ms`: from its oldest sample, capped at
/// the window; 0 when empty.
pub open spec fn effective_window(s: Seq<(u32, u32)>, now_ms: u32) -> nat {
    if s.len() == 0 {
        0
    } else {
        let d = if now_ms > s[0].0 { now_ms - s[0].0 } else { 0 };
        if d > WINDOW_MS { WINDOW_MS as nat } else { d as nat }
    }
}

/// The fields of a node's JSON object up to its children list.
pub open spec fn node_header(name: Seq<char>, total: nat, cc: nat, pcc: Option<nat>, eff: nat) -> Seq<char> {
    "{\"name\":\""@ + json_escape(name) + "\",\"total_us\":"@ + decimal(total)
        + ",\"call_count\":"@ + decimal(cc) + ",\"parent_call_count\":"@
        + (match pcc { Some(p) => decimal(p), None => "null"@ })
        + ",\"effective_window_ms\":"@ + decimal(eff) + ",\"children\":["@
}

/// JSON of node `id` and its subtree; `pcc` is the parent's call count.
pub open spec fn node_json(t: Seq<NodeModel>, id: int, now_ms: u32, pcc: Option<nat>) -> Seq<char>
    decreases t.len() - id, 1int, 0int,
{
    if id < 0 || id >= t.len() {
        Seq::empty()
    } else {
        let n = t[id];
        let cc = n.3.len();
        node_header(n.0, total_us(n.3), cc, pcc, effective_window(n.3, now_ms))
            + children_json(t, id, 0, now_ms, cc) + "]}"@
    }
}

/// JSON of the children of `id` from position `k` on, comma-separated.
pub open spec fn children_json(t: Seq<NodeModel>, id: int, k: int, now_ms: u32, cc: nat) -> Seq<char>
    decreases t.len() - id, 0int, t[id].2.len() - k,
{
    if id < 0 || id >= t.len() || k < 0 || k >= t[id].2.len() {
        Seq::empty()
    } else {
        let c = t[id].2[k] as int;
        (if k > 0 { ","@ } else { Seq::empty() })
            + (if id < c < t.len() { node_json(t, c, now_ms, Some(cc)) } else { Seq::empty() })
            + children_json(t, id, k + 1, now_ms, cc)
    }
}

/// A microsecond reading as milliseconds with three decimals.
pub open spec fn millis_text(us: u64) -> Seq<char> {
    let r = (us % 1000) as nat;
    decimal((us / 1000) as nat) + "."@ + decimal(r / 100) + decimal((r / 10) % 10) + decimal(r % 10)
}

/// A decimal digit's character is `'0'` plus the digit.
proof fn lemma_digit_char_value(d: nat)
    requires
        d < 10,
    ensures
        decimal(d) == seq![digit_char(d)],
        digit_char(d) as int - '0' as int == d,
        '0' <= digit_char(d) <= '9',
{
}

/// A millisecond reading is the whole milliseconds, a dot, and exactly three
/// digits (zero-padded) whose value is the microseconds past the last whole
/// millisecond.
pub proof fn lemma_millis_text_three_decimals(us: u64)
    ensures
        ({
            let w = decimal((us / 1000) as nat);
            let n = w.len() as int;
            let t = millis_text(us);
            &&& t.len() == n + 4
            &&& t.take(n) == w
            &&& t[n] == '.'
            &&& forall|k: int| 1 <= k <= 3 ==> '0' <= #[trigger] t[n + k] <= '9'
            &&& (t[n + 1] as int - '0' as int) * 100 + (t[n + 2] as int - '0' as int) * 10
                + (t[n + 3] as int - '0' as int) == us % 1000
        }),
{
    reveal_strlit(".");
    let r = (us % 1000) as nat;
    let w = decimal((us / 1000) as nat);
    lemma_digit_char_value(r / 100);
    lemma_digit_char_value((r / 10) % 10);
    lemma_digit_char_value(r % 10);
    let t = millis_text(us);
    assert(t =~= w + seq!['.', digit_char(r / 100), digit_char((r / 10) % 10), digit_char(r % 10)]);
    assert(t.take(w.len() as int) =~= w);
    assert((r / 100) * 100 + ((r / 10) % 10) * 10 + r % 10 == r);
}

/// The whole report.
pub open spec fn report_text(t: Seq<NodeModel>, now_us: u64, now_ms: u32, on: bool) -> Seq<char> {
    "{\"now_ms\":"@ + millis_text(now_us) + ",\"window_ms\":"@ + decimal(WINDOW_MS as nat)
        + ",\"enabled\":"@ + (if on { "true"@ } else { "false"@ }) + ",\"tree\":["@
        + node_json(t, ROOT_TICK as int, now_ms, None) + ","@
        + node_json(t, ROOT_FRAME as int, now_ms, None) + "]}"@
}

/// The tree with every ring emptied (names, parents and children kept).
pub open spec fn cleared(t: Seq<NodeModel>) -> Seq<NodeModel> {
    Seq::new(t.len(), |i: int| (t[i].0, t[i].1, t[i].2, Seq::<(u32, u32)>::empty()))
}

fn json_char_str(c: char) -> (s: &'static str)
    requires
        c == '"' || c == '\\' || c == '\n' || c == '\r' || c == '\t',
    ensures
        s@ == json_char(c),
{
    if c == '"' {
        proof { reveal_strlit("\\\""); }
        "\\\""
    } else if c == '\\' {
        proof { reveal_strlit("\\\\"); }
        "\\\\"
    } else if c == '\n' {
        proof { reveal_strlit("\\n"); }
        "\\n"
    } else if c == '\r' {
        proof { reveal_strlit("\\r"); }
        "\\r"
    } else {
        proof { reveal_strlit("\\t"); }
        "\\t"
    }
}

/// Append `s` escaped for a JSON string literal.
fn push_json_escaped(out: &mut String, s: &str)
    ensures
        final(out)@ == old(out)@ + json_escape(s@),
{
    let n = s.unicode_len();
    let ghost start = out@;
    let mut i: usize = 0;
    while i < n
        invariant
            n == s@.len(),
            i <= n,
            out@ == start + json_escape(s@.take(i as int)),
        decreases n - i,
    {
        let c = s.get_char(i);
        if c == '"' || c == '\\' || c == '\n' || c == '\r' || c == '\t' {
            out.append(json_char_str(c));
        } else {
            let one = s.substring_char(i, i + 1);
            assert(one@ =~= seq![c]);
            out.append(one);
        }
        proof {
            assert(s@.take(i as int + 1).drop_last() =~= s@.take(i as int));
            assert(s@.take(i as int + 1).last() == c);
            assert(out@ =~= start + json_escape(s@.take(i as int + 1)));
        }
        i = i + 1;
    }
    assert(s@.take(n as int) =~= s@);
}

fn ring_total(samples: &VecDeque<(u32, u32)>) -> (total: u64)
    requires
        samples@.len() <= SAMPLES_PER_NODE,
    ensures
        total == total_us(samples@),
{
    let mut total: u64 = 0;
    let mut k: usize = 0;
    while k < samples.len()
        invariant
            k <= samples@.len(),
            samples@.len() <= SAMPLES_PER_NODE,
            total == total_us(samples@.take(k as int)),
            total <= k * 0xFFFF_FFFF,
        decreases samples@.len() - k,
    {
        assert(samples@.take(k as int + 1).drop_last() =~= samples@.take(k as int));
        total = total + samples[k].1 as u64;
        k = k + 1;
    }
    assert(samples@.take(k as int) =~= samples@);
    total
}

fn ring_window(samples: &VecDeque<(u32, u32)>, now_ms: u32) -> (eff: u64)
    ensures
        eff == effective_window(samples@, now_ms),
{
    if samples.len() == 0 {
        0
    } else {
        let oldest = samples[0].0;
        let d = if now_ms > oldest { now_ms - oldest } else { 0 };
        if d > WINDOW_MS { WINDOW_MS as u64 } else { d as u64 }
    }
}

fn push_node_header(out: &mut String, name: &str, total: u64, cc: u64, pcc: Option<u64>, eff: u64)
    ensures
        final(out)@ == old(out)@ + node_header(
            name@,
            total as nat,
            cc as nat,
            match pcc { Some(p) => Some(p as nat), None => None },
            eff as nat,
        ),
{
    let ghost start = out@;
    out.append("{\"name\":\"");
    push_json_escaped(out, name);
    out.append("\",\"total_us\":");
    push_decimal(out, total);
    out.append(",\"call_count\":");
    push_decimal(out, cc);
    out.append(",\"parent_call_count\":");
    match pcc {
        Some(p) => push_decimal(out, p),
        None => out.append("null"),
    }
    out.append(",\"effective_window_ms\":");
    push_decimal(out, eff);
    out.append(",\"children\":[");
    proof {
        let gp = match pcc { Some(p) => Some(p as nat), None => None };
        assert(out@ =~= start + node_header(name@, total as nat, cc as nat, gp, eff as nat));
    }
}

/// Milliseconds from `epoch_us` to `now_us`, saturating at 0 and at
/// `u32::MAX`.
pub open spec fn rel_ms(now_us: u64, epoch_us: u64) -> u32 {
    if now_us <= epoch_us {
        0
    } else if (now_us - epoch_us) / 1000 > u32::MAX {
        u32::MAX
    } else {
        ((now_us - epoch_us) / 1000) as u32
    }
}

fn rel_ms_exec(now_us: u64, epoch_us: u64) -> (r: u32)
    ensures
        r == rel_ms(now_us, epoch_us),
{
    if now_us <= epoch_us {
        0
    } else {
        let ms = (now_us - epoch_us) / 1000;
        if ms > u32::MAX as u64 { u32::MAX } else { ms as u32 }
    }
}

/// The start of an open span; end it with [`Profiler::end_span`].
pub struct SpanGuard {
    pub start_us: u64,
}

/// The profiler: on/off switch, node tree, open-span stack and epoch.
pub struct Profiler {
    enabled: bool,
    nodes: Vec<Node>,
    stack: Vec<(NodeId, u64)>,
    epoch_us: u64,
}

impl Profiler {
    /// The node tree as values.
    pub closed spec fn tree(&self) -> Seq<NodeModel> {
        tree_model(self.nodes@)
    }

    /// Whether recording is on.
    pub closed spec fn is_on(&self) -> bool {
        self.enabled
    }

    /// Open spans, innermost last: node and start time.
    pub closed spec fn open_spans(&self) -> Seq<(NodeId, u64)> {
        self.stack@
    }

    /// The epoch timestamps are measured from, in microseconds.
    pub closed spec fn epoch(&self) -> u64 {
        self.epoch_us
    }

    /// The tree is well formed and every open span names one of its nodes.
    pub closed spec fn wf(&self) -> bool {
        &&& tree_wf(self.tree())
        &&& forall|i: int| 0 <= i < self.stack@.len() ==> (#[trigger] self.stack@[i]).0 < self.nodes@.len()
    }

    /// A profiler with only the two roots, switched off, with its epoch at
    /// `now_us`.
    pub fn new(now_us: u64) -> (p: Profiler)
        ensures
            p.wf(),
            !p.is_on(),
            p.tree() == seq![
                ("tick"@, None::<NodeId>, Seq::<NodeId>::empty(), Seq::<(u32, u32)>::empty()),
                ("frame"@, None::<NodeId>, Seq::<NodeId>::empty(), Seq::<(u32, u32)>::empty())
            ],
            p.open_spans() == Seq::<(NodeId, u64)>::empty(),
            p.epoch() == now_us,
    {
        let mut nodes: Vec<Node> = Vec::new();
        nodes.push(Node {
            name: String::from_str("tick"),
            parent: None,
            children: Vec::new(),
            samples: VecDeque::with_capacity(SAMPLES_PER_NODE),
        });
        nodes.push(Node {
            name: String::from_str("frame"),
            parent: None,
            children: Vec::new(),
            samples: VecDeque::with_capacity(SAMPLES_PER_NODE),
        });
        let p = Profiler { enabled: false, nodes, stack: Vec::new(), epoch_us: now_us };
        assert(p.tree() =~= seq![
            ("tick"@, None::<NodeId>, Seq::<NodeId>::empty(), Seq::<(u32, u32)>::empty()),
            ("frame"@, None::<NodeId>, Seq::<NodeId>::empty(), Seq::<(u32, u32)>::empty())
        ]);
        p
    }

    /// Whether recording is on.
    pub fn enabled(&self) -> (b: bool)
        ensures
            b == self.is_on(),
    {
        self.enabled
    }

    /// The child of `parent` named `name`, created on first use (unless the
    /// node cap is reached, in which case `parent` itself is returned).
    fn ensure_child(&mut self, parent: NodeId, name: &str) -> (id: NodeId)
        requires
            old(self).wf(),
            (parent as int) < old(self).tree().len(),
        ensures
            final(self).wf(),
            (final(self).tree(), id) == ensure_child_spec(old(self).tree(), parent as int, name@),
            final(self).is_on() == old(self).is_on(),
            final(self).open_spans() == old(self).open_spans(),
            final(self).epoch() == old(self).epoch(),
    {
        let ghost t = self.tree();
        proof {
            lemma_ensure_child_wf(t, parent as int, name@);
        }
        let p = parent as usize;
        proof {
            lemma_tree_at(self.nodes@, p as int);
        }
        let n_children = self.nodes[p].children.len();
        let mut k: usize = 0;
        while k < n_children
            invariant
                self.wf(),
                t == self.tree(),
                (parent as int) < t.len(),
                n_children == t[parent as int].2.len(),
                k <= n_children,
                find_child_from(t, parent as int, name@, 0) == find_child_from(t, parent as int, name@, k as int),
                p == parent,
            decreases n_children - k,
        {
            proof {
                lemma_tree_at(self.nodes@, p as int);
            }
            let c = self.nodes[p].children[k];
            assert(t[parent as int].2[k as int] == c);
            assert(c < t.len());
            proof {
                lemma_tree_at(self.nodes@, c as int);
            }
            if str_eq(self.nodes[c as usize].name.as_str(), name) {
                return c;
            }
            k = k + 1;
        }
        if self.nodes.len() >= MAX_NODES {
            return parent;
        }
        let new_id = self.nodes.len() as NodeId;
        self.nodes.push(Node {
            name: String::from_str(name),
            parent: Some(parent),
            children: Vec::new(),
            samples: VecDeque::with_capacity(SAMPLES_PER_NODE),
        });
        let mut node = Node { name: String::new(), parent: None, children: Vec::new(), samples: VecDeque::new() };
        self.nodes.set_and_swap(p, &mut node);
        node.children.push(new_id);
        self.nodes.set(p, node);
        proof {
            let r = ensure_child_spec(t, parent as int, name@);
            assert(self.tree() =~= r.0);
        }
        new_id
    }

    /// Switch recording on or off. Switching off empties every ring and
    /// forgets open spans (the tree's shape is kept); switching on moves the
    /// epoch to `now_us`.
    pub fn set_enabled(&mut self, on: bool, now_us: u64)
        requires
            old(self).wf(),
        ensures
            final(self).wf(),
            final(self).is_on() == on,
            !on ==> final(self).tree() == cleared(old(self).tree()),
            !on ==> final(self).open_spans() == Seq::<(NodeId, u64)>::empty(),
            !on ==> final(self).epoch() == old(self).epoch(),
            on ==> final(self).tree() == old(self).tree(),
            on ==> final(self).open_spans() == old(self).open_spans(),
            on ==> final(self).epoch() == now_us,
    {
        self.enabled = on;
        if !on {
            let ghost t = self.tree();
            let mut i: usize = 0;
            while i < self.nodes.len()
                invariant
                    i <= self.nodes@.len(),
                    self.nodes@.len() == t.len(),
                    self.enabled == on,
                    self.epoch_us == old(self).epoch_us,
                    t == tree_model(old(self).nodes@),
                    tree_wf(t),
                    forall|j: int| 0 <= j < self.stack@.len() ==> (#[trigger] self.stack@[j]).0 < self.nodes@.len(),
                    forall|j: int| 0 <= j < i ==> #[trigger] tree_model(self.nodes@)[j] == cleared(t)[j],
                    forall|j: int| i <= j < t.len() ==> #[trigger] tree_model(self.nodes@)[j] == t[j],
                decreases self.nodes@.len() - i,
            {
                proof {
                    lemma_tree_at(self.nodes@, i as int);
                }
                let ghost before = self.nodes@;
                assert(tree_model(before)[i as int] == t[i as int]);
                let mut node = Node { name: String::new(), parent: None, children: Vec::new(), samples: VecDeque::new() };
                self.nodes.set_and_swap(i, &mut node);
                assert(node == before[i as int]);
                node.samples.clear();
                self.nodes.set(i, node);
                proof {
                    assert forall|j: int| 0 <= j < i + 1 implies #[trigger] tree_model(self.nodes@)[j] == cleared(t)[j] by {
                        lemma_tree_at(self.nodes@, j);
                        lemma_tree_at(before, j);
                        if j < i {
                            assert(self.nodes@[j] == before[j]);
                        }
                    }
                    assert forall|j: int| i + 1 <= j < t.len() implies #[trigger] tree_model(self.nodes@)[j] == t[j] by {
                        lemma_tree_at(self.nodes@, j);
                        lemma_tree_at(before, j);
                        assert(self.nodes@[j] == before[j]);
                    }
                }
                i = i + 1;
            }
            self.stack.clear();
            proof {
                assert(self.tree() =~= cleared(t));
                assert forall|a: int, k: int| 0 <= a < self.tree().len() && 0 <= k < self.tree()[a].2.len() implies
                    a < #[trigger] self.tree()[a].2[k] < self.tree().len() by {
                    assert(self.tree()[a].2 == t[a].2);
                }
                assert forall|a: int| 0 <= a < self.tree().len() implies (#[trigger] self.tree()[a]).3.len() <= SAMPLES_PER_NODE by {
                    assert(self.tree()[a] == cleared(t)[a]);
                }
            }
        } else {
            self.epoch_us = now_us;
        }
    }

    /// Open a span named `name` under the innermost open span (or under the
    /// `tick` root when none is open), creating its node on first use.
    pub fn push(&mut self, name: &str, now_us: u64) -> (g: SpanGuard)
        requires
            old(self).wf(),
        ensures
            final(self).wf(),
            g.start_us == now_us,
            ({
                let parent = if old(self).open_spans().len() == 0 {
                    ROOT_TICK as int
                } else {
                    old(self).open_spans().last().0 as int
                };
                let r = ensure_child_spec(old(self).tree(), parent, name@);
                &&& final(self).tree() == r.0
                &&& final(self).open_spans() == old(self).open_spans().push((r.1, now_us))
            }),
            final(self).is_on() == old(self).is_on(),
            final(self).epoch() == old(self).epoch(),
    {
        let parent: NodeId = if self.stack.len() == 0 {
            ROOT_TICK
        } else {
            self.stack[self.stack.len() - 1].0
        };
        let id = self.ensure_child(parent, name);
        proof {
            lemma_ensure_child_wf(old(self).tree(), parent as int, name@);
        }
        self.stack.push((id, now_us));
        SpanGuard { start_us: now_us }
    }

    /// Open the `tick` root span itself.
    pub fn push_root(&mut self, now_us: u64) -> (g: SpanGuard)
        requires
            old(self).wf(),
        ensures
            final(self).wf(),
            g.start_us == now_us,
            final(self).tree() == old(self).tree(),
            final(self).open_spans() == old(self).open_spans().push((ROOT_TICK, now_us)),
            final(self).is_on() == old(self).is_on(),
            final(self).epoch() == old(self).epoch(),
    {
        self.stack.push((ROOT_TICK, now_us));
        SpanGuard { start_us: now_us }
    }

    /// Close the innermost open span at `now_us`: it records
    /// `(ms since epoch, µs since the guard's start, capped at u32::MAX)`.
    /// With no open span nothing is recorded.
    pub fn end_span(&mut self, guard: SpanGuard, now_us: u64)
        requires
            old(self).wf(),
            now_us >= guard.start_us,
        ensures
            final(self).wf(),
            final(self).is_on() == old(self).is_on(),
            final(self).epoch() == old(self).epoch(),
            old(self).open_spans().len() == 0 ==> final(self).tree() == old(self).tree()
                && final(self).open_spans() == old(self).open_spans(),
            old(self).open_spans().len() > 0 ==> ({
                let dur = if now_us - guard.start_us > u32::MAX { u32::MAX } else { (now_us - guard.start_us) as u32 };
                &&& final(self).open_spans() == old(self).open_spans().drop_last()
                &&& final(self).tree() == add_sample_spec(
                    old(self).tree(),
                    old(self).open_spans().last().0 as int,
                    (rel_ms(now_us, old(self).epoch()), dur),
                )
            }),
    {
        let elapsed = now_us - guard.start_us;
        let dur: u32 = if elapsed > u32::MAX as u64 { u32::MAX } else { elapsed as u32 };
        let ts = rel_ms_exec(now_us, self.epoch_us);
        match self.stack.pop() {
            Some((id, _start)) => {
                self.add_sample(id, (ts, dur));
            },
            None => {},
        }
    }

    /// Walk a dotted path from `root`, ensuring each non-empty part as a
    /// child; returns the node reached.
    fn descend_path(&mut self, root: NodeId, path: &str) -> (id: NodeId)
        requires
            old(self).wf(),
            (root as int) < old(self).tree().len(),
        ensures
            final(self).wf(),
            (final(self).tree(), id) == descend(old(self).tree(), root as int, path_parts(path@)),
            (id as int) < final(self).tree().len(),
            final(self).is_on() == old(self).is_on(),
            final(self).open_spans() == old(self).open_spans(),
            final(self).epoch() == old(self).epoch(),
    {
        let ghost t0 = self.tree();
        let ghost ps = path@;
        let n = path.unicode_len();
        let mut node = root;
        let mut start: usize = 0;
        let mut i: usize = 0;
        let ghost mut done: Seq<Seq<char>> = Seq::empty();
        proof {
            lemma_descend_push(t0, root as int, done, Seq::empty());
            assert(ps.skip(0) =~= ps);
            assert(ps.subrange(0, 0) =~= Seq::<char>::empty());
        }
        while i < n
            invariant
                n == ps.len(),
                ps == path@,
                self.wf(),
                tree_wf(t0),
                (root as int) < t0.len(),
                start <= i <= n,
                path_parts(ps) == done + split_parts(ps.skip(i as int), ps.subrange(start as int, i as int)),
                (self.tree(), node) == descend(t0, root as int, done),
                (node as int) < self.tree().len(),
                self.is_on() == old(self).is_on(),
                self.open_spans() == old(self).open_spans(),
                self.epoch() == old(self).epoch(),
            decreases n - i,
        {
            let c = path.get_char(i);
            proof {
                lemma_split_step(ps, i as int, ps.subrange(start as int, i as int));
            }
            if c == '.' {
                if start < i {
                    let part = path.substring_char(start, i);
                    let ghost cur = ps.subrange(start as int, i as int);
                    proof {
                        lemma_descend_push(t0, root as int, done, cur);
                        lemma_ensure_child_wf(self.tree(), node as int, cur);
                    }
                    node = self.ensure_child(node, part);
                    proof {
                        assert(seq![cur] + split_parts(ps.skip(i + 1), Seq::empty())
                            =~= seq![cur] + split_parts(ps.skip(i + 1), Seq::empty()));
                        assert(done + (seq![cur] + split_parts(ps.skip(i + 1), Seq::empty()))
                            =~= done.push(cur) + split_parts(ps.skip(i + 1), Seq::empty()));
                        done = done.push(cur);
                    }
                } else {
                    proof {
                        assert(Seq::<Seq<char>>::empty() + split_parts(ps.skip(i + 1), Seq::empty())
                            =~= split_parts(ps.skip(i + 1), Seq::empty()));
                    }
                }
                start = i + 1;
                proof {
                    assert(ps.subrange(start as int, i + 1) =~= Seq::<char>::empty());
                }
            } else {
                proof {
                    assert(ps.subrange(start as int, i as int).push(ps[i as int]) =~= ps.subrange(start as int, i + 1));
                }
            }
            i = i + 1;
        }
        proof {
            assert(ps.skip(n as int) =~= Seq::<char>::empty());
        }
        if start < n {
            let part = path.substring_char(start, n);
            let ghost cur = ps.subrange(start as int, n as int);
            proof {
                lemma_descend_push(t0, root as int, done, cur);
                lemma_ensure_child_wf(self.tree(), node as int, cur);
            }
            node = self.ensure_child(node, part);
            proof {
                done = done.push(cur);
                assert(path_parts(ps) =~= done);
            }
        } else {
            proof {
                assert(path_parts(ps) =~= done);
            }
        }
        node
    }

    /// Record an externally timed sample `dur_us` at `now_us` under the
    /// `tick` root, at the node the dotted `path` names (nodes created as
    /// needed; empty parts skipped). Nothing happens while switched off.
    pub fn record_under_tick(&mut self, path: &str, dur_us: u32, now_us: u64)
        requires
            old(self).wf(),
        ensures
            final(self).wf(),
            !old(self).is_on() ==> final(self).tree() == old(self).tree(),
            old(self).is_on() ==> final(self).tree() == record_path_spec(
                old(self).tree(),
                ROOT_TICK as int,
                path@,
                (rel_ms(now_us, old(self).epoch()), dur_us),
            ),
            final(self).is_on() == old(self).is_on(),
            final(self).open_spans() == old(self).open_spans(),
            final(self).epoch() == old(self).epoch(),
    {
        if !self.enabled {
            return;
        }
        let now_ms = rel_ms_exec(now_us, self.epoch_us);
        let id = self.descend_path(ROOT_TICK, path);
        self.add_sample(id, (now_ms, dur_us));
    }

    /// Record an externally timed sample `dur_us` at `now_us` under the
    /// `frame` root, at the node the dotted `path` names.
    pub fn record_external(&mut self, path: &str, dur_us: u32, now_us: u64)
        requires
            old(self).wf(),
        ensures
            final(self).wf(),
            final(self).tree() == record_path_spec(
                old(self).tree(),
                ROOT_FRAME as int,
                path@,
                (rel_ms(now_us, old(self).epoch()), dur_us),
            ),
            final(self).is_on() == old(self).is_on(),
            final(self).open_spans() == old(self).open_spans(),
            final(self).epoch() == old(self).epoch(),
    {
        let now_ms = rel_ms_exec(now_us, self.epoch_us);
        let id = self.descend_path(ROOT_FRAME, path);
        self.add_sample(id, (now_ms, dur_us));
    }

    /// Drop, from every ring, the samples older than the window ending at
    /// `now_ms` (rings are oldest-first, so only fronts are dropped).
    fn prune(&mut self, now_ms: u32)
        requires
            old(self).wf(),
        ensures
            final(self).wf(),
            final(self).tree() == pruned(old(self).tree(), window_cutoff(now_ms)),
            final(self).is_on() == old(self).is_on(),
            final(self).open_spans() == old(self).open_spans(),
            final(self).epoch() == old(self).epoch(),
    {
        let cutoff: u32 = if now_ms > WINDOW_MS { now_ms - WINDOW_MS } else { 0 };
        let ghost t = self.tree();
        let mut i: usize = 0;
        while i < self.nodes.len()
            invariant
                i <= self.nodes@.len(),
                self.nodes@.len() == t.len(),
                cutoff == window_cutoff(now_ms),
                self.enabled == old(self).enabled,
                self.epoch_us == old(self).epoch_us,
                self.stack@ == old(self).stack@,
                t == tree_model(old(self).nodes@),
                tree_wf(t),
                forall|j: int| 0 <= j < self.stack@.len() ==> (#[trigger] self.stack@[j]).0 < self.nodes@.len(),
                forall|j: int| 0 <= j < i ==> #[trigger] tree_model(self.nodes@)[j] == pruned(t, cutoff)[j],
                forall|j: int| i <= j < t.len() ==> #[trigger] tree_model(self.nodes@)[j] == t[j],
            decreases self.nodes@.len() - i,
        {
            proof {
                lemma_tree_at(self.nodes@, i as int);
            }
            let ghost before = self.nodes@;
            let mut node = Node { name: String::new(), parent: None, children: Vec::new(), samples: VecDeque::new() };
            self.nodes.set_and_swap(i, &mut node);
            let ghost orig = node.samples@;
            let ghost orig_node = node;
            assert(node == before[i as int]);
            assert(orig == t[i as int].3);
            while node.samples.len() > 0 && node.samples[0].0 < cutoff
                invariant
                    drop_stale(orig, cutoff) == drop_stale(node.samples@, cutoff),
                    node.name == orig_node.name,
                    node.parent == orig_node.parent,
                    node.children == orig_node.children,
                decreases node.samples@.len(),
            {
                let ghost cur = node.samples@;
                node.samples.pop_front();
                assert(node.samples@ =~= cur.drop_first());
            }
            assert(node.samples@ == drop_stale(orig, cutoff));
            self.nodes.set(i, node);
            proof {
                assert forall|j: int| 0 <= j < i + 1 implies #[trigger] tree_model(self.nodes@)[j] == pruned(t, cutoff)[j] by {
                    lemma_tree_at(self.nodes@, j);
                    lemma_tree_at(before, j);
                    if j < i {
                        assert(self.nodes@[j] == before[j]);
                    }
                }
                assert forall|j: int| i + 1 <= j < t.len() implies #[trigger] tree_model(self.nodes@)[j] == t[j] by {
                    lemma_tree_at(self.nodes@, j);
                    lemma_tree_at(before, j);
                    assert(self.nodes@[j] == before[j]);
                }
            }
            i = i + 1;
        }
        proof {
            assert(self.tree() =~= pruned(t, cutoff));
            assert forall|a: int, k: int| 0 <= a < self.tree().len() && 0 <= k < self.tree()[a].2.len() implies
                a < #[trigger] self.tree()[a].2[k] < self.tree().len() by {
                assert(self.tree()[a].2 == t[a].2);
            }
            assert forall|a: int| 0 <= a < self.tree().len() implies (#[trigger] self.tree()[a]).3.len() <= SAMPLES_PER_NODE by {
                lemma_drop_stale_len(t[a].3, cutoff);
            }
        }
    }

    fn serialize_node(&self, id: NodeId, now_ms: u32, pcc: Option<u64>, out: &mut String)
        requires
            self.wf(),
            (id as int) < self.tree().len(),
        ensures
            final(out)@ == old(out)@ + node_json(
                self.tree(),
                id as int,
                now_ms,
                match pcc { Some(p) => Some(p as nat), None => None },
            ),
        decreases self.tree().len() - id, 1int, 0int,
    {
        let ghost t = self.tree();
        proof {
            lemma_tree_at(self.nodes@, id as int);
        }
        let node = &self.nodes[id as usize];
        let cc = node.samples.len() as u64;
        let total = ring_total(&node.samples);
        let eff = ring_window(&node.samples, now_ms);
        let ghost start = out@;
        push_node_header(out, node.name.as_str(), total, cc, pcc, eff);
        let ghost mid = out@;
        self.serialize_children(id, 0, now_ms, cc, out);
        let ghost mid2 = out@;
        out.append("]}");
        proof {
            let n = t[id as int];
            assert(n.0 == node.name@);
            assert(n.3 == node.samples@);
            let gp = match pcc { Some(p) => Some(p as nat), None => None };
            assert(mid == start + node_header(n.0, total_us(n.3), n.3.len(), gp, effective_window(n.3, now_ms)));
            assert(out@ =~= start + node_json(t, id as int, now_ms, gp));
        }
    }

    fn serialize_children(&self, id: NodeId, k: usize, now_ms: u32, cc: u64, out: &mut String)
        requires
            self.wf(),
            (id as int) < self.tree().len(),
            k <= self.tree()[id as int].2.len(),
        ensures
            final(out)@ == old(out)@ + children_json(self.tree(), id as int, k as int, now_ms, cc as nat),
        decreases self.tree().len() - id, 0int, self.tree()[id as int].2.len() - k,
    {
        proof {
            lemma_tree_at(self.nodes@, id as int);
        }
        let n_children = self.nodes[id as usize].children.len();
        if k >= n_children {
            assert(old(out)@ + children_json(self.tree(), id as int, k as int, now_ms, cc as nat) =~= old(out)@);
            return;
        }
        let ghost start = out@;
        if k > 0 {
            out.append(",");
        }
        let c = self.nodes[id as usize].children[k];
        assert(c == self.tree()[id as int].2[k as int]);
        self.serialize_node(c, now_ms, Some(cc), out);
        self.serialize_children(id, k + 1, now_ms, cc, out);
        proof {
            let t = self.tree();
            assert(id < c < t.len());
            assert(out@ =~= start + children_json(t, id as int, k as int, now_ms, cc as nat));
        }
    }

    /// The JSON report at `now_us`, after pruning samples older than the
    /// window: the time, window, switch state, and the `tick` and `frame`
    /// trees with, per node, its name, total duration and call count over
    /// the window, its parent's call count, the time its samples cover and
    /// its children.
    pub fn report_json(&mut self, now_us: u64) -> (s: String)
        requires
            old(self).wf(),
        ensures
            final(self).wf(),
            final(self).tree() == pruned(old(self).tree(), window_cutoff(rel_ms(now_us, old(self).epoch()))),
            s@ == report_text(final(self).tree(), now_us, rel_ms(now_us, old(self).epoch()), old(self).is_on()),
            final(self).is_on() == old(self).is_on(),
            final(self).open_spans() == old(self).open_spans(),
            final(self).epoch() == old(self).epoch(),
    {
        let now_ms = rel_ms_exec(now_us, self.epoch_us);
        self.prune(now_ms);
        let mut out = String::new();
        out.append("{\"now_ms\":");
        push_decimal(&mut out, now_us / 1000);
        out.append(".");
        let r = now_us % 1000;
        push_decimal(&mut out, r / 100);
        push_decimal(&mut out, (r / 10) % 10);
        push_decimal(&mut out, r % 10);
        out.append(",\"window_ms\":");
        push_decimal(&mut out, WINDOW_MS as u64);
        out.append(",\"enabled\":");
        if self.enabled {
            out.append("true");
        } else {
            out.append("false");
        }
        out.append(",\"tree\":[");
        self.serialize_node(ROOT_TICK, now_ms, None, &mut out);
        out.append(",");
        self.serialize_node(ROOT_FRAME, now_ms, None, &mut out);
        out.append("]}");
        out
    }

    /// Record sample `s` into node `id` (dropping the oldest when full).
    fn add_sample(&mut self, id: NodeId, s: (u32, u32))
        requires
            old(self).wf(),
            (id as int) < old(self).tree().len(),
        ensures
            final(self).wf(),
            final(self).tree() == add_sample_spec(old(self).tree(), id as int, s),
            final(self).is_on() == old(self).is_on(),
            final(self).open_spans() == old(self).open_spans(),
            final(self).epoch() == old(self).epoch(),
    {
        let ghost t = self.tree();
        proof {
            lemma_add_sample_wf(t, id as int, s);
        }
        let i = id as usize;
        proof {
            lemma_tree_at(self.nodes@, i as int);
        }
        let mut node = Node { name: String::new(), parent: None, children: Vec::new(), samples: VecDeque::new() };
        self.nodes.set_and_swap(i, &mut node);
        assert(node_model(node) == t[id as int]);
        if node.samples.len() == SAMPLES_PER_NODE {
            node.samples.pop_front();
        }
        node.samples.push_back(s);
        self.nodes.set(i, node);
        proof {
            assert(self.tree() =~= add_sample_spec(t, id as int, s));
        }
    }
}

} // verus!

//! Output volume state: folding the audio daemon's events into the nodes
//! it knows, and the snapshot the control center shows.
use vstd::prelude::*;
use std::collections::BTreeMap;
use vstd::std_specs::btree::{increasing_seq, spec_btree_map_iter};
use vstd::std_specs::iter::IteratorSpec;

verus! {

/// An audio output device.
#[derive(Debug, PartialEq, Eq)]
pub struct Sink {
    pub id: u32,
    pub name: String,
}

/// Snapshot of the output state the UI needs.
#[derive(Debug, PartialEq, Eq)]
pub struct AudioState {
    pub volume: u32,
    pub muted: bool,
    pub sinks: Vec<Sink>,
    pub default_sink: Option<u32>,
}

impl Default for AudioState {
    fn default() -> (s: AudioState)
        ensures
            s.volume == 0,
            !s.muted,
            s.sinks@.len() == 0,
            s.default_sink is None,
    {
        AudioState { volume: 0, muted: false, sinks: Vec::new(), default_sink: None }
    }
}

/// What the daemon says about a node.
#[derive(Debug)]
pub struct NodeInfo {
    pub name: String,
    pub description: String,
    pub is_sink: bool,
}

/// An event of the audio daemon.
#[derive(Debug)]
pub enum AudioEvent {
    Node(u32, NodeInfo),
    NodeVolume(u32, u32),
    NodeMute(u32, bool),
    DefaultSink(u32),
    RemoveNode(u32),
    /// An event the control center does not follow.
    Other,
}

struct NodeState {
    name: String,
    is_sink: bool,
    volume: u32,
    muted: bool,
}

/// A node as plain values.
pub struct NodeView {
    pub name: Seq<char>,
    pub is_sink: bool,
    pub volume: u32,
    pub muted: bool,
}

/// What a node is before the daemon said anything about it.
pub open spec fn fresh_node() -> NodeView {
    NodeView { name: Seq::empty(), is_sink: false, volume: 0, muted: false }
}

/// The node known under `id`, or a fresh one.
pub open spec fn node_or_fresh(m: Map<u32, NodeView>, id: u32) -> NodeView {
    if m.contains_key(id) {
        m[id]
    } else {
        fresh_node()
    }
}

/// The model as plain values: nodes by id, and the default sink.
pub struct ModelView {
    pub nodes: Map<u32, NodeView>,
    pub default_sink: Option<u32>,
}

/// The name shown for a node: its description, or its name when the
/// description is empty.
pub open spec fn shown_name(info_name: Seq<char>, description: Seq<char>) -> Seq<char> {
    if description.len() == 0 {
        info_name
    } else {
        description
    }
}

/// The model after one event.
pub open spec fn applied(m: ModelView, e: AudioEvent) -> ModelView {
    match e {
        AudioEvent::Node(id, info) => {
            let n = node_or_fresh(m.nodes, id);
            ModelView {
                nodes: m.nodes.insert(
                    id,
                    NodeView {
                        name: shown_name(info.name@, info.description@),
                        is_sink: info.is_sink,
                        ..n
                    },
                ),
                ..m
            }
        },
        AudioEvent::NodeVolume(id, volume) => ModelView {
            nodes: m.nodes.insert(id, NodeView { volume, ..node_or_fresh(m.nodes, id) }),
            ..m
        },
        AudioEvent::NodeMute(id, muted) => ModelView {
            nodes: m.nodes.insert(id, NodeView { muted, ..node_or_fresh(m.nodes, id) }),
            ..m
        },
        AudioEvent::DefaultSink(id) => ModelView { default_sink: Some(id), ..m },
        AudioEvent::RemoveNode(id) => ModelView {
            nodes: m.nodes.remove(id),
            default_sink: if m.default_sink == Some(id) {
                None
            } else {
                m.default_sink
            },
        },
        AudioEvent::Other => m,
    }
}

/// Folds daemon events into [`AudioState`].
pub struct Model {
    nodes: BTreeMap<u32, NodeState>,
    default_sink: Option<u32>,
}

spec fn node_view(n: NodeState) -> NodeView {
    NodeView { name: n.name@, is_sink: n.is_sink, volume: n.volume, muted: n.muted }
}

/// A node the control center lists: a sink with a name.
pub open spec fn listed(n: NodeView) -> bool {
    n.is_sink && n.name.len() > 0
}

/// `sinks` lists, by strictly ascending id, exactly the listed nodes of
/// `nodes`, each under its name.
pub open spec fn lists_sinks(sinks: Seq<(u32, Seq<char>)>, nodes: Map<u32, NodeView>) -> bool {
    &&& forall|i: int, j: int| 0 <= i < j < sinks.len() ==> sinks[i].0 < sinks[j].0
    &&& forall|i: int|
        0 <= i < sinks.len() ==> nodes.contains_key(#[trigger] sinks[i].0) && listed(nodes[sinks[i].0])
            && sinks[i].1 == nodes[sinks[i].0].name
    &&& forall|id: u32| #[trigger] nodes.contains_key(id) && listed(nodes[id]) ==> exists|i: int| 0 <= i < sinks.len() && sinks[i].0 == id
}

/// The listed nodes of `s`, in its order, with their names.
pub open spec fn shown_sinks(s: Seq<(u32, NodeView)>) -> Seq<(u32, Seq<char>)>
    decreases s.len(),
{
    if s.len() == 0 {
        Seq::empty()
    } else {
        let rest = shown_sinks(s.drop_last());
        let (id, n) = s.last();
        if listed(n) {
            rest.push((id, n.name))
        } else {
            rest
        }
    }
}

/// The sinks of a snapshot as plain values.
pub open spec fn sinks_view(v: Seq<Sink>) -> Seq<(u32, Seq<char>)> {
    v.map_values(|s: Sink| (s.id, s.name@))
}

/// The entry `e` comes from a listed node of `s` with that name.
pub open spec fn listed_in(s: Seq<(u32, NodeView)>, e: (u32, Seq<char>)) -> bool {
    exists|j: int| 0 <= j < s.len() && s[j].0 == e.0 && listed(s[j].1) && s[j].1.name == e.1
}

/// `id` is listed in `out`.
pub open spec fn id_in(out: Seq<(u32, Seq<char>)>, id: u32) -> bool {
    exists|i: int| 0 <= i < out.len() && out[i].0 == id
}

/// What `shown_sinks` keeps of an id-ascending list of nodes.
#[verifier::rlimit(30)]
proof fn lemma_shown_sinks(s: Seq<(u32, NodeView)>)
    requires
        forall|i: int, j: int| 0 <= i < j < s.len() ==> s[i].0 < s[j].0,
    ensures
        forall|i: int, j: int| 0 <= i < j < shown_sinks(s).len() ==> shown_sinks(s)[i].0 < shown_sinks(s)[j].0,
        forall|i: int| 0 <= i < shown_sinks(s).len() ==> #[trigger] listed_in(s, shown_sinks(s)[i]),
        forall|j: int| 0 <= j < s.len() && listed(s[j].1) ==> #[trigger] id_in(shown_sinks(s), s[j].0),
    decreases s.len(),
{
    if s.len() > 0 {
        let init = s.drop_last();
        lemma_shown_sinks(init);
        let r = shown_sinks(init);
        let out = shown_sinks(s);
        let last = s[s.len() - 1];
        assert(s.last() == last);
        assert forall|i: int| 0 <= i < out.len() implies #[trigger] listed_in(s, out[i]) by {
            if i < r.len() {
                assert(out[i] == r[i]);
                assert(listed_in(init, r[i]));
                let j = choose|j: int| 0 <= j < init.len() && init[j].0 == r[i].0 && listed(init[j].1) && init[j].1.name == r[i].1;
                assert(s[j] == init[j]);
            } else {
                assert(out[i] == (last.0, last.1.name));
            }
        }
        assert forall|j: int| 0 <= j < s.len() && listed(s[j].1) implies #[trigger] id_in(out, s[j].0) by {
            if j < init.len() {
                assert(init[j] == s[j]);
                assert(id_in(r, init[j].0));
                let i = choose|i: int| 0 <= i < r.len() && r[i].0 == init[j].0;
                assert(out[i] == r[i]);
            } else {
                assert(out[out.len() - 1].0 == s[j].0);
            }
        }
        assert forall|a: int, b: int| 0 <= a < b < out.len() implies out[a].0 < out[b].0 by {
            if b < r.len() {
                assert(out[a] == r[a] && out[b] == r[b]);
            } else {
                assert(out[a] == r[a]);
                assert(listed_in(init, r[a]));
                let j = choose|j: int| 0 <= j < init.len() && init[j].0 == r[a].0 && listed(init[j].1) && init[j].1.name == r[a].1;
                assert(s[j] == init[j]);
                assert(out[b].0 == last.0);
            }
        }
    }
}

impl Model {
    /// The nodes the daemon told of, by id.
    pub closed spec fn node_map(&self) -> Map<u32, NodeView> {
        self.nodes@.map_values(|n: NodeState| node_view(n))
    }

    /// The default sink the daemon named last.
    pub closed spec fn default_id(&self) -> Option<u32> {
        self.default_sink
    }

    /// The model as plain values.
    pub open spec fn model(&self) -> ModelView {
        ModelView { nodes: self.node_map(), default_sink: self.default_id() }
    }

    /// A model that knows nothing yet.
    pub fn new() -> (m: Model)
        ensures
            m.model() == empty_model(),
    {
        let m = Model { nodes: BTreeMap::new(), default_sink: None };
        assert(m.node_map() =~= Map::<u32, NodeView>::empty());
        m
    }

    /// Take the node under `id` out, or a fresh one.
    fn take_node(&mut self, id: u32) -> (r: NodeState)
        ensures
            final(self).default_id() == old(self).default_id(),
            final(self).node_map() == old(self).node_map().remove(id),
            node_view(r) == node_or_fresh(old(self).model().nodes, id),
    {
        let ghost before = self.nodes@;
        let taken = self.nodes.remove(&id);
        assert(self.node_map() =~= old(self).node_map().remove(id));
        match taken {
            Some(n) => n,
            None => {
                let n = NodeState { name: String::new(), is_sink: false, volume: 0, muted: false };
                assert(node_view(n) =~= fresh_node());
                n
            },
        }
    }

    /// Put a node under `id`.
    fn put_node(&mut self, id: u32, node: NodeState)
        ensures
            final(self).default_id() == old(self).default_id(),
            final(self).node_map() == old(self).node_map().insert(id, node_view(node)),
    {
        let ghost v = node_view(node);
        let _ = self.nodes.insert(id, node);
        assert(self.node_map() =~= old(self).node_map().insert(id, v));
    }

    /// Fold one daemon event into the model.
    pub fn apply(&mut self, event: AudioEvent)
        ensures
            final(self).model() == applied(old(self).model(), event),
    {
        let ghost before = self.model();
        match event {
            AudioEvent::Node(id, info) => {
                let mut node = self.take_node(id);
                node.name = if info.description.as_str().is_empty() {
                    info.name
                } else {
                    info.description
                };
                node.is_sink = info.is_sink;
                self.put_node(id, node);
                assert(before.nodes.remove(id).insert(id, node_view(node)) =~= before.nodes.insert(id, node_view(node)));
            },
            AudioEvent::NodeVolume(id, volume) => {
                let mut node = self.take_node(id);
                node.volume = volume;
                self.put_node(id, node);
                assert(before.nodes.remove(id).insert(id, node_view(node)) =~= before.nodes.insert(id, node_view(node)));
            },
            AudioEvent::NodeMute(id, muted) => {
                let mut node = self.take_node(id);
                node.muted = muted;
                self.put_node(id, node);
                assert(before.nodes.remove(id).insert(id, node_view(node)) =~= before.nodes.insert(id, node_view(node)));
            },
            AudioEvent::DefaultSink(id) => {
                self.default_sink = Some(id);
            },
            AudioEvent::RemoveNode(id) => {
                let _ = self.take_node(id);
                if self.default_sink == Some(id) {
                    self.default_sink = None;
                }
            },
            AudioEvent::Other => {},
        }
    }

    /// The snapshot the control center shows: the default sink's volume and
    /// mute state, and every named sink in id order.
    pub fn state(&self) -> (r: AudioState)
        ensures
            r.default_sink == self.model().default_sink,
            ({
                let d = match self.model().default_sink {
                    Some(id) => if self.model().nodes.contains_key(id) {
                        Some(self.model().nodes[id])
                    } else {
                        None
                    },
                    None => None,
                };
                &&& r.volume == (match d { Some(n) => n.volume, None => 0u32 })
                &&& r.muted == (match d { Some(n) => n.muted, None => false })
            }),
            lists_sinks(sinks_view(r.sinks@), self.model().nodes),
    {
        let mut volume: u32 = 0;
        let mut muted = false;
        if let Some(id) = self.default_sink {
            if let Some(n) = self.nodes.get(&id) {
                volume = n.volume;
                muted = n.muted;
            }
        }
        let ghost m = self.nodes@;
        let ghost v = spec_btree_map_iter(&self.nodes).remaining();
        let ghost pairs = v.map_values(|kv: (&u32, &NodeState)| (*kv.0, node_view(*kv.1)));
        proof {
            lemma_u32_keys_ordered();
        }
        let entries = self.nodes.iter();
        proof {
            assert(entries == spec_btree_map_iter(&self.nodes));
            lemma_ids_ascending(v.map_values(|kv: (&u32, &NodeState)| *kv.0));
        }
        let mut sinks: Vec<Sink> = Vec::new();
        for (id, node) in it: entries
            invariant
                it.seq() == v,
                pairs == v.map_values(|kv: (&u32, &NodeState)| (*kv.0, node_view(*kv.1))),
                sinks_view(sinks@) == shown_sinks(pairs.take(it.index() as int)),
        {
            let ghost k = it.index() as int;
            assert(pairs.take(k + 1).drop_last() =~= pairs.take(k));
            assert(pairs.take(k + 1).last() == pairs[k]);
            if node.is_sink && !node.name.as_str().is_empty() {
                sinks.push(Sink { id: *id, name: node.name.clone() });
                assert(sinks_view(sinks@) =~= shown_sinks(pairs.take(k + 1)));
            }
        }
        proof {
            assert(pairs.take(pairs.len() as int) =~= pairs);
            let ks = v.map_values(|kv: (&u32, &NodeState)| *kv.0);
            assert forall|i: int, j: int| 0 <= i < j < pairs.len() implies pairs[i].0 < pairs[j].0 by {
                assert(pairs[i].0 == ks[i] && pairs[j].0 == ks[j]);
            }
            lemma_shown_sinks(pairs);
            let out = shown_sinks(pairs);
            let nodes = self.model().nodes;
            assert forall|i: int| 0 <= i < out.len() implies nodes.contains_key(#[trigger] out[i].0) && listed(nodes[out[i].0])
                && out[i].1 == nodes[out[i].0].name by {
                assert(listed_in(pairs, out[i]));
                let j = choose|j: int| 0 <= j < pairs.len() && pairs[j].0 == out[i].0 && listed(pairs[j].1) && pairs[j].1.name == out[i].1;
                assert(m.contains_key(*v[j].0) && m[*v[j].0] == *v[j].1);
            }
            assert forall|id: u32| #[trigger] nodes.contains_key(id) && listed(nodes[id]) implies exists|i: int| 0 <= i < out.len() && out[i].0 == id by {
                assert(m.contains_key(id));
                assert(v.contains((&id, &m[id])));
                let j = choose|j: int| 0 <= j < v.len() && v[j] == (&id, &m[id]);
                assert(pairs[j] == (id, node_view(m[id])));
                assert(listed(pairs[j].1));
                assert(id_in(out, pairs[j].0));
            }
        }
        AudioState { volume, muted, sinks, default_sink: self.default_sink }
    }
}

/// `u32` keys are ordered as a `BTreeMap` needs.
proof fn lemma_u32_keys_ordered()
    ensures
        vstd::std_specs::btree::key_obeys_cmp_spec::<u32>(),
{
    assert(vstd::laws_cmp::obeys_cmp::<u32>());
}

/// Keys the map's iterator yields come in strictly ascending order.
proof fn lemma_ids_ascending(ks: Seq<u32>)
    requires
        increasing_seq(ks),
    ensures
        forall|i: int, j: int| 0 <= i < j < ks.len() ==> ks[i] < ks[j],
{
    assert(vstd::laws_cmp::obeys_cmp::<u32>());
    assert forall|i: int, j: int| 0 <= i < j < ks.len() implies ks[i] < ks[j] by {
        assert(vstd::std_specs::cmp::OrdSpec::cmp_spec(&ks[i], &ks[j]) is Less);
    }
}

impl Default for Model {
    fn default() -> (m: Model)
        ensures
            m.model() == empty_model(),
    {
        Model::new()
    }
}

/// The model after the events `es`, one after another.
pub open spec fn applied_all(m: ModelView, es: Seq<AudioEvent>) -> ModelView
    decreases es.len(),
{
    if es.len() == 0 {
        m
    } else {
        applied(applied_all(m, es.drop_last()), es.last())
    }
}

/// The model before any event.
pub open spec fn empty_model() -> ModelView {
    ModelView { nodes: Map::empty(), default_sink: None }
}

/// `e` names `id` the default sink.
pub open spec fn names_default(e: AudioEvent, id: u32) -> bool {
    e matches AudioEvent::DefaultSink(x) && x == id
}

/// `e` removes the node `id`.
pub open spec fn removes(e: AudioEvent, id: u32) -> bool {
    e matches AudioEvent::RemoveNode(x) && x == id
}

/// `e` tells something of the node `id`.
pub open spec fn touches(e: AudioEvent, id: u32) -> bool {
    match e {
        AudioEvent::Node(x, _) => x == id,
        AudioEvent::NodeVolume(x, _) => x == id,
        AudioEvent::NodeMute(x, _) => x == id,
        _ => false,
    }
}

/// The event `es[k]` names `id` the default sink, and no later event names
/// another default or removes `id`.
pub open spec fn default_stands(es: Seq<AudioEvent>, id: u32, k: int) -> bool {
    &&& 0 <= k < es.len()
    &&& names_default(es[k], id)
    &&& forall|j: int| k < j < es.len() ==> !(#[trigger] es[j] is DefaultSink) && !removes(es[j], id)
}

/// The event `es[k]` tells of the node `id`, and no later event removes it.
pub open spec fn node_stands(es: Seq<AudioEvent>, id: u32, k: int) -> bool {
    &&& 0 <= k < es.len()
    &&& touches(es[k], id)
    &&& forall|j: int| k < j < es.len() ==> !removes(#[trigger] es[j], id)
}

/// Law of the audio model over a run of events from nothing: the default
/// sink is the one the last `DefaultSink` named, unless that node was
/// removed since; a node is known exactly when an event told of it after
/// its last removal.
pub proof fn law_audio_events(es: Seq<AudioEvent>, id: u32)
    ensures
        applied_all(empty_model(), es).default_sink == Some(id) <==> exists|k: int| #[trigger] default_stands(es, id, k),
        applied_all(empty_model(), es).nodes.contains_key(id) <==> exists|k: int| #[trigger] node_stands(es, id, k),
    decreases es.len(),
{
    if es.len() > 0 {
        let init = es.drop_last();
        let e = es.last();
        let n = es.len() - 1;
        law_audio_events(init, id);
        let before = applied_all(empty_model(), init);
        let after = applied_all(empty_model(), es);
        assert(after == applied(before, e));
        assert forall|k: int| 0 <= k < n implies #[trigger] es[k] == init[k] by {}
        // the default sink
        if exists|k: int| #[trigger] default_stands(es, id, k) {
            let k = choose|k: int| #[trigger] default_stands(es, id, k);
            if k < n {
                assert(default_stands(init, id, k)) by {
                    assert forall|j: int| k < j < init.len() implies !(#[trigger] init[j] is DefaultSink) && !removes(init[j], id) by {
                        assert(es[j] == init[j]);
                    }
                }
                assert(!(es[n] is DefaultSink) && !removes(es[n], id));
            }
            assert(after.default_sink == Some(id));
        }
        if after.default_sink == Some(id) {
            if names_default(e, id) {
                assert(default_stands(es, id, n));
            } else {
                assert(!(e is DefaultSink) && !removes(e, id));
                assert(before.default_sink == Some(id));
                let k = choose|k: int| #[trigger] default_stands(init, id, k);
                assert(default_stands(es, id, k)) by {
                    assert forall|j: int| k < j < es.len() implies !(#[trigger] es[j] is DefaultSink) && !removes(es[j], id) by {
                        if j < n {
                            assert(es[j] == init[j]);
                        }
                    }
                }
            }
        }
        // the nodes known
        if exists|k: int| #[trigger] node_stands(es, id, k) {
            let k = choose|k: int| #[trigger] node_stands(es, id, k);
            if k < n {
                assert(node_stands(init, id, k)) by {
                    assert forall|j: int| k < j < init.len() implies !removes(#[trigger] init[j], id) by {
                        assert(es[j] == init[j]);
                    }
                }
                assert(!removes(es[n], id));
            }
            assert(after.nodes.contains_key(id));
        }
        if after.nodes.contains_key(id) {
            if touches(e, id) {
                assert(node_stands(es, id, n));
            } else {
                assert(!removes(e, id));
                assert(before.nodes.contains_key(id));
                let k = choose|k: int| #[trigger] node_stands(init, id, k);
                assert(node_stands(es, id, k)) by {
                    assert forall|j: int| k < j < es.len() implies !removes(#[trigger] es[j], id) by {
                        if j < n {
                            assert(es[j] == init[j]);
                        }
                    }
                }
            }
        }
    }
}

/// `e` tells the name and kind of the node `id`.
pub open spec fn describes(e: AudioEvent, id: u32) -> bool {
    e matches AudioEvent::Node(x, _) && x == id
}

/// The name a `Node` event gives its node (its description, else its name).
pub open spec fn told_name(e: AudioEvent) -> Seq<char> {
    match e {
        AudioEvent::Node(_, info) => shown_name(info.name@, info.description@),
        _ => Seq::empty(),
    }
}

/// Whether a `Node` event says its node is a sink.
pub open spec fn told_sink(e: AudioEvent) -> bool {
    match e {
        AudioEvent::Node(_, info) => info.is_sink,
        _ => false,
    }
}

/// The event `es[k]` tells of the node `id`'s name and kind, and no later
/// event tells them again or removes the node.
pub open spec fn info_stands(es: Seq<AudioEvent>, id: u32, k: int) -> bool {
    &&& 0 <= k < es.len()
    &&& describes(es[k], id)
    &&& forall|j: int| k < j < es.len() ==> !describes(#[trigger] es[j], id) && !removes(es[j], id)
}

/// Law of the audio model over a run of events from nothing: a node's name
/// and kind come from the latest `Node` event about it since
/// its last removal; without one it has no name and is no sink.
pub proof fn law_node_name_and_kind(es: Seq<AudioEvent>, id: u32)
    ensures
        forall|k: int|
            #[trigger] info_stands(es, id, k) ==> applied_all(empty_model(), es).nodes.contains_key(id)
                && applied_all(empty_model(), es).nodes[id].name == told_name(es[k])
                && applied_all(empty_model(), es).nodes[id].is_sink == told_sink(es[k]),
        applied_all(empty_model(), es).nodes.contains_key(id) && !(exists|k: int| #[trigger] info_stands(es, id, k))
            ==> applied_all(empty_model(), es).nodes[id].name.len() == 0 && !applied_all(empty_model(), es).nodes[id].is_sink,
    decreases es.len(),
{
    if es.len() > 0 {
        let init = es.drop_last();
        let e = es.last();
        let n = es.len() - 1;
        law_node_name_and_kind(init, id);
        let before = applied_all(empty_model(), init);
        let after = applied_all(empty_model(), es);
        assert(after == applied(before, e));
        assert(es[n] == e);
        assert forall|k: int| 0 <= k < n implies #[trigger] es[k] == init[k] by {}
        if describes(e, id) {
            assert(info_stands(es, id, n));
            assert forall|k: int| #[trigger] info_stands(es, id, k) implies k == n by {
                if k < n {
                    assert(!describes(es[n], id));
                }
            }
        } else if removes(e, id) {
            assert forall|k: int| !#[trigger] info_stands(es, id, k) by {
                if 0 <= k < n {
                    assert(removes(es[n], id));
                }
            }
        } else {
            assert forall|k: int|
                #![trigger info_stands(es, id, k)]
                #![trigger info_stands(init, id, k)]
                info_stands(es, id, k) <==> info_stands(init, id, k) by {
                if 0 <= k < n {
                    if info_stands(init, id, k) {
                        assert forall|j: int| k < j < es.len() implies !describes(#[trigger] es[j], id) && !removes(es[j], id) by {
                            if j < n {
                                assert(es[j] == init[j]);
                            }
                        }
                    }
                    if info_stands(es, id, k) {
                        assert forall|j: int| k < j < init.len() implies !describes(#[trigger] init[j], id) && !removes(init[j], id) by {
                            assert(es[j] == init[j]);
                        }
                    }
                }
            }
            assert(after.nodes.contains_key(id) ==> before.nodes.contains_key(id) || touches(e, id));
            if after.nodes.contains_key(id) {
                assert(after.nodes[id].name == node_or_fresh(before.nodes, id).name);
                assert(after.nodes[id].is_sink == node_or_fresh(before.nodes, id).is_sink);
            }
        }
    }
}

/// Law of the audio model over a run of events from nothing: a node is
/// listed (a sink with a name) exactly when the latest `Node` event about it
/// since its last removal said it is a sink and gave it a non-empty name.
pub proof fn law_audio_listed(es: Seq<AudioEvent>, id: u32)
    ensures
        (applied_all(empty_model(), es).nodes.contains_key(id) && listed(applied_all(empty_model(), es).nodes[id]))
            <==> exists|k: int| #[trigger] info_stands(es, id, k) && told_sink(es[k]) && told_name(es[k]).len() > 0,
{
    law_node_name_and_kind(es, id);
}

/// `e` sets the mute state of the node `id`.
pub open spec fn mutes(e: AudioEvent, id: u32) -> bool {
    e matches AudioEvent::NodeMute(x, _) && x == id
}

/// The mute state a `NodeMute` event sets.
pub open spec fn told_muted(e: AudioEvent) -> bool {
    match e {
        AudioEvent::NodeMute(_, m) => m,
        _ => false,
    }
}

/// `e` sets the volume of the node `id`.
pub open spec fn sets_volume(e: AudioEvent, id: u32) -> bool {
    e matches AudioEvent::NodeVolume(x, _) && x == id
}

/// The volume a `NodeVolume` event sets.
pub open spec fn told_volume(e: AudioEvent) -> u32 {
    match e {
        AudioEvent::NodeVolume(_, v) => v,
        _ => 0,
    }
}

/// The event `es[k]` sets the mute state of `id`, and no later event sets
/// it again or removes the node.
pub open spec fn mute_stands(es: Seq<AudioEvent>, id: u32, k: int) -> bool {
    &&& 0 <= k < es.len()
    &&& mutes(es[k], id)
    &&& forall|j: int| k < j < es.len() ==> !mutes(#[trigger] es[j], id) && !removes(es[j], id)
}

/// The event `es[k]` sets the volume of `id`, and no later event sets it
/// again or removes the node.
pub open spec fn volume_stands(es: Seq<AudioEvent>, id: u32, k: int) -> bool {
    &&& 0 <= k < es.len()
    &&& sets_volume(es[k], id)
    &&& forall|j: int| k < j < es.len() ==> !sets_volume(#[trigger] es[j], id) && !removes(es[j], id)
}

/// Law of the audio model over a run of events from nothing: a known node
/// is muted exactly as the latest `NodeMute` about it since its last
/// removal says (unmuted without one), and its volume is the latest
/// `NodeVolume`'s (0 without one); `Node` events change neither.
pub proof fn law_audio_mute_and_volume(es: Seq<AudioEvent>, id: u32)
    ensures
        forall|k: int|
            #[trigger] mute_stands(es, id, k) ==> applied_all(empty_model(), es).nodes.contains_key(id)
                && applied_all(empty_model(), es).nodes[id].muted == told_muted(es[k]),
        applied_all(empty_model(), es).nodes.contains_key(id) && !(exists|k: int| #[trigger] mute_stands(es, id, k))
            ==> !applied_all(empty_model(), es).nodes[id].muted,
        forall|k: int|
            #[trigger] volume_stands(es, id, k) ==> applied_all(empty_model(), es).nodes.contains_key(id)
                && applied_all(empty_model(), es).nodes[id].volume == told_volume(es[k]),
        applied_all(empty_model(), es).nodes.contains_key(id) && !(exists|k: int| #[trigger] volume_stands(es, id, k))
            ==> applied_all(empty_model(), es).nodes[id].volume == 0,
    decreases es.len(),
{
    if es.len() > 0 {
        let init = es.drop_last();
        let e = es.last();
        let n = es.len() - 1;
        law_audio_mute_and_volume(init, id);
        let before = applied_all(empty_model(), init);
        let after = applied_all(empty_model(), es);
        assert(after == applied(before, e));
        assert(es[n] == e);
        assert forall|k: int| 0 <= k < n implies #[trigger] es[k] == init[k] by {}
        if removes(e, id) {
            assert forall|k: int| !#[trigger] mute_stands(es, id, k) by {
                if 0 <= k < n {
                    assert(removes(es[n], id));
                }
            }
            assert forall|k: int| !#[trigger] volume_stands(es, id, k) by {
                if 0 <= k < n {
                    assert(removes(es[n], id));
                }
            }
        } else {
            if mutes(e, id) {
                assert(mute_stands(es, id, n));
                assert forall|k: int| #[trigger] mute_stands(es, id, k) implies k == n by {
                    if k < n {
                        assert(!mutes(es[n], id));
                    }
                }
            } else {
                assert forall|k: int|
                    #![trigger mute_stands(es, id, k)]
                    #![trigger mute_stands(init, id, k)]
                    mute_stands(es, id, k) <==> mute_stands(init, id, k) by {
                    if 0 <= k < n {
                        if mute_stands(init, id, k) {
                            assert forall|j: int| k < j < es.len() implies !mutes(#[trigger] es[j], id) && !removes(es[j], id) by {
                                if j < n {
                                    assert(es[j] == init[j]);
                                }
                            }
                        }
                        if mute_stands(es, id, k) {
                            assert forall|j: int| k < j < init.len() implies !mutes(#[trigger] init[j], id) && !removes(init[j], id) by {
                                assert(es[j] == init[j]);
                            }
                        }
                    }
                }
            }
            if sets_volume(e, id) {
                assert(volume_stands(es, id, n));
                assert forall|k: int| #[trigger] volume_stands(es, id, k) implies k == n by {
                    if k < n {
                        assert(!sets_volume(es[n], id));
                    }
                }
            } else {
                assert forall|k: int|
                    #![trigger volume_stands(es, id, k)]
                    #![trigger volume_stands(init, id, k)]
                    volume_stands(es, id, k) <==> volume_stands(init, id, k) by {
                    if 0 <= k < n {
                        if volume_stands(init, id, k) {
                            assert forall|j: int| k < j < es.len() implies !sets_volume(#[trigger] es[j], id) && !removes(es[j], id) by {
                                if j < n {
                                    assert(es[j] == init[j]);
                                }
                            }
                        }
                        if volume_stands(es, id, k) {
                            assert forall|j: int| k < j < init.len() implies !sets_volume(#[trigger] init[j], id) && !removes(init[j], id) by {
                                assert(es[j] == init[j]);
                            }
                        }
                    }
                }
            }
            if after.nodes.contains_key(id) {
                assert(before.nodes.contains_key(id) || touches(e, id));
            }
        }
    }
}

} // verus!

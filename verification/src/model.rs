//! The mathematical model of the graph store.
//!
//! A store is a table from node id to node state together with the counter
//! from which every id (node or subscription) is drawn. The spec functions
//! here say what each operation of the library does to that table; the
//! executable code in [`crate::graph`] is proved to match them, and the laws
//! in [`crate::laws`] are proved from them alone.

use vstd::prelude::*;

verus! {

/// The state of one node: an optional scalar value, the named links to its
/// children, the ids of the nodes that created it as a child, and the ids of
/// its subscriptions in registration order.
#[verifier::ext_equal]
pub ghost struct NodeView {
    pub value: Option<Seq<char>>,
    pub links: Map<Seq<char>, int>,
    pub linked_by: Seq<int>,
    pub subs: Seq<int>,
}

/// The whole store: every node by id, and the counter from which the next
/// id (node or subscription) will be drawn. Ids below `next_id` are spent
/// and are never handed out again.
#[verifier::ext_equal]
pub ghost struct StoreView {
    pub nodes: Map<int, NodeView>,
    pub next_id: int,
}

/// One notification owed to a subscriber: the subscription id and the value
/// that was put.
#[verifier::ext_equal]
pub ghost struct NoteView {
    pub sub: int,
    pub value: Seq<char>,
}

/// The state of a node that was just created: no value, no links, no
/// subscriptions, and the creating parent recorded as its one back-link.
pub open spec fn new_node_view(parent: int) -> NodeView {
    NodeView { value: None, links: Map::empty(), linked_by: seq![parent], subs: Seq::empty() }
}

/// A fresh graph: the root node alone, under the reserved id 0, with the
/// counter ready to hand out 1.
pub open spec fn root_view() -> StoreView {
    StoreView {
        nodes: Map::empty().insert(
            0,
            NodeView {
                value: None,
                links: Map::empty(),
                linked_by: Seq::empty(),
                subs: Seq::empty(),
            },
        ),
        next_id: 1,
    }
}

/// Whether `get(path)` on node `id` finds an existing child. Only a node
/// without a value consults its links; a leaf always creates a fresh child,
/// the deliberately permissive policy of this store.
pub open spec fn finds_existing(m: StoreView, id: int, path: Seq<char>) -> bool {
    m.nodes[id].value is None && m.nodes[id].links.dom().contains(path)
}

/// The id that `get(path)` on node `id` returns: the linked child where one
/// is found, else the freshly allocated id.
pub open spec fn spec_child_id(m: StoreView, id: int, path: Seq<char>) -> int {
    if finds_existing(m, id, path) {
        m.nodes[id].links[path]
    } else {
        m.next_id
    }
}

/// The store after `get(path)` on node `id`: unchanged where the child
/// exists, else grown by one fresh node, with `path` now linked to it from
/// `id` (overwriting any stale link a leaf may carry).
pub open spec fn spec_get(m: StoreView, id: int, path: Seq<char>) -> StoreView {
    if finds_existing(m, id, path) {
        m
    } else {
        let n = m.nodes[id];
        let parent = NodeView {
            value: n.value,
            links: n.links.insert(path, m.next_id),
            linked_by: n.linked_by,
            subs: n.subs,
        };
        StoreView {
            nodes: m.nodes.insert(id, parent).insert(m.next_id, new_node_view(id)),
            next_id: m.next_id + 1,
        }
    }
}

/// The subscription id that `on` allocates.
pub open spec fn spec_on_sub(m: StoreView) -> int {
    m.next_id
}

/// The value that `on` replays to the new subscriber: the value already
/// present, if any.
pub open spec fn spec_on_replay(m: StoreView, id: int) -> Option<Seq<char>> {
    m.nodes[id].value
}

/// The store after `on` on node `id`: the fresh subscription id appended to
/// that node's subscriptions, nothing else changed.
pub open spec fn spec_on_store(m: StoreView, id: int) -> StoreView {
    let n = m.nodes[id];
    let n1 = NodeView {
        value: n.value,
        links: n.links,
        linked_by: n.linked_by,
        subs: n.subs.push(m.next_id),
    };
    StoreView { nodes: m.nodes.insert(id, n1), next_id: m.next_id + 1 }
}

/// The store after `put(v)` on node `id`: the value replaced, the links
/// cleared (children are discarded from the node, never from the store),
/// back-links and subscriptions kept, no id spent.
pub open spec fn spec_put_store(m: StoreView, id: int, v: Seq<char>) -> StoreView {
    let n = m.nodes[id];
    let n1 = NodeView { value: Some(v), links: Map::empty(), linked_by: n.linked_by, subs: n.subs };
    StoreView { nodes: m.nodes.insert(id, n1), next_id: m.next_id }
}

/// The notifications one `put(v)` owes: one per subscription, in
/// registration order, all carrying `v`.
pub open spec fn put_notes(subs: Seq<int>, v: Seq<char>) -> Seq<NoteView> {
    subs.map_values(|s: int| NoteView { sub: s, value: v })
}

/// Whether `id` names a node of the store.
pub open spec fn id_in(m: StoreView, id: int) -> bool {
    m.nodes.dom().contains(id)
}

/// A subscription id is spent but never collides with a node id: both are
/// drawn from the one counter.
pub open spec fn sub_id_wf(m: StoreView, s: int) -> bool {
    0 <= s < m.next_id && !m.nodes.dom().contains(s)
}

/// Everything node `id` refers to is sound: every link target and every
/// back-link names a node of the store, and every subscription id is a spent
/// non-node id.
pub open spec fn node_wf(m: StoreView, id: int) -> bool {
    let n = m.nodes[id];
    &&& forall|p: Seq<char>| #[trigger]
        n.links.dom().contains(p) ==> m.nodes.dom().contains(n.links[p])
    &&& forall|i: int| 0 <= i < n.linked_by.len() ==> m.nodes.dom().contains(
        #[trigger] n.linked_by[i],
    )
    &&& forall|i: int| 0 <= i < n.subs.len() ==> sub_id_wf(m, #[trigger] n.subs[i])
}

/// No subscription id is registered twice, on one node or across nodes.
pub open spec fn subs_unique(m: StoreView) -> bool {
    forall|a: int, i: int, b: int, j: int|
        #![trigger m.nodes[a].subs[i], m.nodes[b].subs[j]]
        m.nodes.dom().contains(a) && m.nodes.dom().contains(b) && 0 <= i < m.nodes[a].subs.len()
            && 0 <= j < m.nodes[b].subs.len() && m.nodes[a].subs[i] == m.nodes[b].subs[j] ==> a == b
            && i == j
}

/// The store's invariant: the root exists under id 0, every node id is
/// spent, every reference is sound, and subscription ids are unique.
pub open spec fn wf_view(m: StoreView) -> bool {
    &&& m.nodes.dom().contains(0)
    &&& 1 <= m.next_id
    &&& forall|id: int| #[trigger] m.nodes.dom().contains(id) ==> 0 <= id < m.next_id
    &&& forall|id: int| #[trigger] m.nodes.dom().contains(id) ==> node_wf(m, id)
    &&& subs_unique(m)
}

/// `get` preserves the store's invariant: the fresh node is registered
/// under a never-used id, its one back-link names its creating parent, and
/// every older reference stays sound because the store only grows.
pub proof fn lemma_get_wf(m: StoreView, id: int, path: Seq<char>)
    requires
        wf_view(m),
        id_in(m, id),
    ensures
        wf_view(spec_get(m, id, path)),
{
    if !finds_existing(m, id, path) {
        let m1 = spec_get(m, id, path);
        let c = m.next_id;
        assert(m1.nodes.dom() =~= m.nodes.dom().insert(c));
        assert(!m.nodes.dom().contains(c));
        assert forall|k: int| #[trigger] m1.nodes.dom().contains(k) implies node_wf(m1, k) by {
            if k == c {
                assert(m1.nodes[k] == new_node_view(id));
                assert forall|t: int| 0 <= t < m1.nodes[k].linked_by.len() implies m1.nodes.dom()
                    .contains(#[trigger] m1.nodes[k].linked_by[t]) by {
                    assert(m1.nodes[k].linked_by[t] == id);
                }
            } else {
                assert(node_wf(m, k));
                if k != id {
                    assert(m1.nodes[k] == m.nodes[k]);
                }
                assert(m1.nodes[k].linked_by == m.nodes[k].linked_by);
                assert(m1.nodes[k].subs == m.nodes[k].subs);
                assert forall|p: Seq<char>| #[trigger] m1.nodes[k].links.dom().contains(
                    p,
                ) implies m1.nodes.dom().contains(m1.nodes[k].links[p]) by {
                    if k == id && p == path {
                        assert(m1.nodes[k].links[p] == c);
                    } else {
                        assert(m.nodes[k].links.dom().contains(p));
                        assert(m1.nodes[k].links[p] == m.nodes[k].links[p]);
                    }
                }
                assert forall|t: int| 0 <= t < m1.nodes[k].linked_by.len() implies m1.nodes.dom()
                    .contains(#[trigger] m1.nodes[k].linked_by[t]) by {
                    assert(m.nodes.dom().contains(m.nodes[k].linked_by[t]));
                }
                assert forall|t: int| 0 <= t < m1.nodes[k].subs.len() implies sub_id_wf(
                    m1,
                    #[trigger] m1.nodes[k].subs[t],
                ) by {
                    assert(sub_id_wf(m, m.nodes[k].subs[t]));
                }
            }
        }
        assert forall|a: int, i: int, b: int, j: int|
            m1.nodes.dom().contains(a) && m1.nodes.dom().contains(b) && 0 <= i
                < m1.nodes[a].subs.len() && 0 <= j < m1.nodes[b].subs.len()
                && #[trigger] m1.nodes[a].subs[i]
                == #[trigger] m1.nodes[b].subs[j] implies a == b && i == j by {
            assert(a != c && b != c);
            assert(m1.nodes[a].subs == m.nodes[a].subs);
            assert(m1.nodes[b].subs == m.nodes[b].subs);
            assert(m.nodes[a].subs[i] == m.nodes[b].subs[j]);
        }
    }
}

/// `on` preserves the store's invariant: the fresh subscription id is drawn
/// from the shared counter, so it collides neither with a node id nor with
/// any subscription registered before.
pub proof fn lemma_on_wf(m: StoreView, id: int)
    requires
        wf_view(m),
        id_in(m, id),
    ensures
        wf_view(spec_on_store(m, id)),
{
    let m1 = spec_on_store(m, id);
    let fresh = m.next_id;
    let len = m.nodes[id].subs.len() as int;
    assert(m1.nodes.dom() =~= m.nodes.dom());
    assert(!m.nodes.dom().contains(fresh));
    assert forall|k: int| #[trigger] m1.nodes.dom().contains(k) implies node_wf(m1, k) by {
        assert(node_wf(m, k));
        if k != id {
            assert(m1.nodes[k] == m.nodes[k]);
        }
        assert(m1.nodes[k].links == m.nodes[k].links);
        assert(m1.nodes[k].linked_by == m.nodes[k].linked_by);
        assert forall|t: int| 0 <= t < m1.nodes[k].subs.len() implies sub_id_wf(
            m1,
            #[trigger] m1.nodes[k].subs[t],
        ) by {
            if k == id && t == len {
                assert(m1.nodes[k].subs[t] == fresh);
            } else {
                assert(m1.nodes[k].subs[t] == m.nodes[k].subs[t]);
                assert(sub_id_wf(m, m.nodes[k].subs[t]));
            }
        }
    }
    assert forall|a: int, i: int, b: int, j: int|
        m1.nodes.dom().contains(a) && m1.nodes.dom().contains(b) && 0 <= i < m1.nodes[a].subs.len()
            && 0 <= j < m1.nodes[b].subs.len() && #[trigger] m1.nodes[a].subs[i]
            == #[trigger] m1.nodes[b].subs[j] implies a == b && i == j by {
        let a_new = a == id && i == len;
        let b_new = b == id && j == len;
        if !a_new {
            assert(m1.nodes[a].subs[i] == m.nodes[a].subs[i]);
            assert(node_wf(m, a));
            assert(sub_id_wf(m, m.nodes[a].subs[i]));
        }
        if !b_new {
            assert(m1.nodes[b].subs[j] == m.nodes[b].subs[j]);
            assert(node_wf(m, b));
            assert(sub_id_wf(m, m.nodes[b].subs[j]));
        }
        if a_new && b_new {
        } else if !a_new && !b_new {
            assert(m.nodes[a].subs[i] == m.nodes[b].subs[j]);
        } else {
            assert(false);
        }
    }
}

/// `put` preserves the store's invariant.
pub proof fn lemma_put_wf(m: StoreView, id: int, v: Seq<char>)
    requires
        wf_view(m),
        id_in(m, id),
    ensures
        wf_view(spec_put_store(m, id, v)),
{
    let m1 = spec_put_store(m, id, v);
    assert(m1.nodes.dom() =~= m.nodes.dom());
    assert forall|k: int| #[trigger] m1.nodes.dom().contains(k) implies node_wf(m1, k) by {
        assert(node_wf(m, k));
        if k != id {
            assert(m1.nodes[k] == m.nodes[k]);
        }
        assert(m1.nodes[k].linked_by == m.nodes[k].linked_by);
        assert(m1.nodes[k].subs == m.nodes[k].subs);
    }
    assert forall|a: int, i: int, b: int, j: int|
        m1.nodes.dom().contains(a) && m1.nodes.dom().contains(b) && 0 <= i < m1.nodes[a].subs.len()
            && 0 <= j < m1.nodes[b].subs.len() && #[trigger] m1.nodes[a].subs[i]
            == #[trigger] m1.nodes[b].subs[j] implies a == b && i == j by {
        assert(m1.nodes[a].subs == m.nodes[a].subs);
        assert(m1.nodes[b].subs == m.nodes[b].subs);
        assert(m.nodes[a].subs[i] == m.nodes[b].subs[j]);
    }
}

} // verus!

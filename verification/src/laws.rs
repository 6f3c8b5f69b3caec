//! The laws of the store, proved from the model alone.
//!
//! Each proof function here states a guarantee of the library over the
//! model of [`crate::model`]; the executable operations are proved to
//! follow that model exactly, so these laws carry over to every run.

use crate::model::NoteView;
use crate::model::StoreView;
use crate::model::finds_existing;
use crate::model::id_in;
use crate::model::new_node_view;
use crate::model::node_wf;
use crate::model::put_notes;
use crate::model::root_view;
use crate::model::spec_child_id;
use crate::model::spec_get;
use crate::model::spec_on_replay;
use crate::model::spec_on_store;
use crate::model::spec_on_sub;
use crate::model::spec_put_store;
use crate::model::sub_id_wf;
use crate::model::subs_unique;
use crate::model::wf_view;
use vstd::prelude::*;

verus! {

/// A fresh graph is well formed.
pub proof fn lemma_root_wf()
    ensures
        wf_view(root_view()),
{
}

/// Getting the same path twice from an unset node creates at most one
/// child: the second call changes nothing and returns the same id, so
/// every repetition of `get(path)` on that node yields the identical
/// child.
pub proof fn lemma_get_idempotent(m: StoreView, id: int, path: Seq<char>)
    requires
        wf_view(m),
        id_in(m, id),
        m.nodes[id].value is None,
    ensures
        spec_get(spec_get(m, id, path), id, path) == spec_get(m, id, path),
        spec_child_id(spec_get(m, id, path), id, path) == spec_child_id(m, id, path),
{
    let m1 = spec_get(m, id, path);
    if !finds_existing(m, id, path) {
        assert(id != m.next_id);
        assert(m1.nodes[id].links.dom().contains(path));
        assert(finds_existing(m1, id, path));
        assert(m1.nodes[id].links[path] == m.next_id);
    }
}

/// A `put` clears the links: getting any previously linked path afterwards
/// creates a new child, one whose id was never in the store before, and
/// that child is unset — no value, no links, no subscriptions, only the
/// back-link to its creating parent.
pub proof fn lemma_put_then_get_fresh(m: StoreView, id: int, path: Seq<char>, v: Seq<char>)
    requires
        wf_view(m),
        id_in(m, id),
        m.nodes[id].links.dom().contains(path),
    ensures
        ({
            let m1 = spec_put_store(m, id, v);
            let c = spec_child_id(m1, id, path);
            &&& c != m.nodes[id].links[path]
            &&& !id_in(m, c)
            &&& spec_get(m1, id, path).nodes[c] == new_node_view(id)
        }),
{
    let m1 = spec_put_store(m, id, v);
    assert(!finds_existing(m1, id, path));
    assert(node_wf(m, id));
    let old_child = m.nodes[id].links[path];
    assert(m.nodes.dom().contains(old_child));
    assert(old_child < m.next_id);
    assert(id != m1.next_id);
}

/// A subscription made while a value is present replays exactly that value
/// at registration; the subscription id is fresh, and any later `put(v2)`
/// owes it exactly one note, carrying `v2`.
pub proof fn lemma_on_replays_and_fires(m: StoreView, id: int, v2: Seq<char>)
    requires
        wf_view(m),
        id_in(m, id),
    ensures
        ({
            let s = spec_on_sub(m);
            let m1 = spec_on_store(m, id);
            let notes = put_notes(m1.nodes[id].subs, v2);
            &&& spec_on_replay(m, id) == m.nodes[id].value
            &&& m1.nodes[id].subs == m.nodes[id].subs.push(s)
            &&& !m.nodes[id].subs.contains(s)
            &&& exists|k: int|
                0 <= k < notes.len() && notes[k] == (NoteView { sub: s, value: v2 })
            &&& forall|k: int|
                0 <= k < notes.len() && (#[trigger] notes[k]).sub == s ==> notes[k] == (NoteView {
                    sub: s,
                    value: v2,
                })
            &&& forall|k1: int, k2: int|
                0 <= k1 < notes.len() && 0 <= k2 < notes.len() && (#[trigger] notes[k1]).sub == s
                    && (#[trigger] notes[k2]).sub == s ==> k1 == k2
        }),
{
    assert(node_wf(m, id));
    let s = spec_on_sub(m);
    let subs0 = m.nodes[id].subs;
    if subs0.contains(s) {
        let k = choose|k: int| 0 <= k < subs0.len() && subs0[k] == s;
        assert(sub_id_wf(m, subs0[k]));
        assert(false);
    }
    let m1 = spec_on_store(m, id);
    let subs1 = m1.nodes[id].subs;
    let notes = put_notes(subs1, v2);
    let last = subs1.len() - 1;
    assert(notes[last] == (NoteView { sub: s, value: v2 }));
    assert forall|k: int| 0 <= k < notes.len() && (#[trigger] notes[k]).sub == s implies k
        == last by {
        if k < last {
            assert(subs1[k] == subs0[k]);
            assert(sub_id_wf(m, subs0[k]));
        }
    }
}

/// Two `put`s in order notify a subscriber registered before both exactly
/// once each: one note with the first value in the first batch, one note
/// with the second value in the second, and the batches are handed back in
/// put order, each before its `put` returns.
pub proof fn lemma_two_puts_in_order(m: StoreView, id: int, s: int, v1: Seq<char>, v2: Seq<char>)
    requires
        wf_view(m),
        id_in(m, id),
        m.nodes[id].subs.contains(s),
    ensures
        ({
            let n1 = put_notes(m.nodes[id].subs, v1);
            let m1 = spec_put_store(m, id, v1);
            let n2 = put_notes(m1.nodes[id].subs, v2);
            &&& m1.nodes[id].subs == m.nodes[id].subs
            &&& exists|k: int| 0 <= k < n1.len() && n1[k] == (NoteView { sub: s, value: v1 })
            &&& forall|k: int|
                0 <= k < n1.len() && (#[trigger] n1[k]).sub == s ==> n1[k] == (NoteView {
                    sub: s,
                    value: v1,
                })
            &&& forall|k1: int, k2: int|
                0 <= k1 < n1.len() && 0 <= k2 < n1.len() && (#[trigger] n1[k1]).sub == s
                    && (#[trigger] n1[k2]).sub == s ==> k1 == k2
            &&& exists|k: int| 0 <= k < n2.len() && n2[k] == (NoteView { sub: s, value: v2 })
            &&& forall|k: int|
                0 <= k < n2.len() && (#[trigger] n2[k]).sub == s ==> n2[k] == (NoteView {
                    sub: s,
                    value: v2,
                })
            &&& forall|k1: int, k2: int|
                0 <= k1 < n2.len() && 0 <= k2 < n2.len() && (#[trigger] n2[k1]).sub == s
                    && (#[trigger] n2[k2]).sub == s ==> k1 == k2
        }),
{
    let subs = m.nodes[id].subs;
    let w = choose|k: int| 0 <= k < subs.len() && subs[k] == s;
    let n1 = put_notes(subs, v1);
    assert(n1[w] == (NoteView { sub: s, value: v1 }));
    let m1 = spec_put_store(m, id, v1);
    let n2 = put_notes(m1.nodes[id].subs, v2);
    assert(n2[w] == (NoteView { sub: s, value: v2 }));
    assert(subs_unique(m));
    assert forall|k1: int, k2: int|
        0 <= k1 < subs.len() && 0 <= k2 < subs.len() && (#[trigger] subs[k1]) == s
            && (#[trigger] subs[k2]) == s implies k1 == k2 by {
        assert(m.nodes[id].subs[k1] == m.nodes[id].subs[k2]);
    }
}

/// The root keeps the reserved id 0 and the store only grows: `get` never
/// removes a node, and a child it creates is registered under the counter's
/// next id, which no node (the root included) has ever carried.
pub proof fn lemma_get_ids_fresh(m: StoreView, id: int, path: Seq<char>)
    requires
        wf_view(m),
        id_in(m, id),
    ensures
        ({
            let m1 = spec_get(m, id, path);
            let c = spec_child_id(m, id, path);
            &&& m.next_id <= m1.next_id
            &&& forall|k: int| #[trigger] id_in(m, k) ==> id_in(m1, k)
            &&& id_in(m1, c)
            &&& !finds_existing(m, id, path) ==> c == m.next_id && !id_in(m, c) && c != 0
        }),
{
    let m1 = spec_get(m, id, path);
    if finds_existing(m, id, path) {
        assert(node_wf(m, id));
    } else {
        assert(!id_in(m, m.next_id));
        assert(id_in(m, 0));
    }
}

/// Neither `on` nor `put` registers or removes a node, and neither hands an
/// id out twice: the table's domain is unchanged and the counter never
/// decreases.
pub proof fn lemma_on_put_keep_nodes(m: StoreView, id: int, v: Seq<char>)
    requires
        wf_view(m),
        id_in(m, id),
    ensures
        spec_on_store(m, id).nodes.dom() == m.nodes.dom(),
        spec_put_store(m, id, v).nodes.dom() == m.nodes.dom(),
        m.next_id <= spec_on_store(m, id).next_id,
        spec_put_store(m, id, v).next_id == m.next_id,
{
    assert(spec_on_store(m, id).nodes.dom() =~= m.nodes.dom());
    assert(spec_put_store(m, id, v).nodes.dom() =~= m.nodes.dom());
}

} // verus!


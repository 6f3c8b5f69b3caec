//! The executable store and its node handles.
//!
//! The store is an arena: a vector of node records with pairwise distinct
//! ids, viewed as the table of [`crate::model::StoreView`]. A [`Node`] is a
//! handle, a plain id; every operation takes the store it belongs to, so
//! that any number of handles share one mutable graph.

use crate::model::NodeView;
use crate::model::NoteView;
use crate::model::StoreView;
use crate::model::finds_existing;
use crate::model::id_in;
use crate::model::lemma_get_wf;
use crate::model::lemma_on_wf;
use crate::model::lemma_put_wf;
use crate::model::new_node_view;
use crate::model::node_wf;
use crate::model::put_notes;
use crate::model::root_view;
use crate::model::spec_child_id;
use crate::model::spec_get;
use crate::model::spec_on_replay;
use crate::model::spec_on_store;
use crate::model::spec_on_sub;
use crate::model::spec_put_store;
use crate::model::wf_view;
use vstd::pervasive::unreached;
use vstd::prelude::*;

verus! {

/// One named link from a container node to a child id.
struct Link {
    pub path: String,
    pub child: usize,
}

/// One node record as stored: the id it is registered under, its optional
/// value, its links, its back-links, and its subscription ids in
/// registration order.
struct Record {
    pub id: usize,
    pub value: Option<String>,
    pub links: Vec<Link>,
    pub linked_by: Vec<usize>,
    pub subscriptions: Vec<usize>,
}

/// One notification owed to a subscriber after a `put`.
pub struct Note {
    pub sub: usize,
    pub value: String,
}

impl View for Note {
    type V = NoteView;

    open spec fn view(&self) -> NoteView {
        NoteView { sub: self.sub as int, value: self.value@ }
    }
}

/// The view of an optional stored value.
pub open spec fn value_view(v: Option<String>) -> Option<Seq<char>> {
    match v {
        Some(s) => Some(s@),
        None => None,
    }
}

/// The ids of a sequence, as mathematical integers.
pub open spec fn ids_seq(s: Seq<usize>) -> Seq<int> {
    s.map_values(|x: usize| x as int)
}

/// The mapping that a sequence of links denotes; a later link with the same
/// path overrides an earlier one, as re-inserting a key does.
spec fn links_map(s: Seq<Link>) -> Map<Seq<char>, int>
    decreases s.len(),
{
    if s.len() == 0 {
        Map::empty()
    } else {
        links_map(s.drop_last()).insert(s.last().path@, s.last().child as int)
    }
}

/// No two links of the sequence share a path.
spec fn paths_unique(s: Seq<Link>) -> bool {
    forall|i: int, j: int|
        #![trigger s[i].path, s[j].path]
        0 <= i < s.len() && 0 <= j < s.len() && i != j ==> s[i].path@ != s[j].path@
}

/// Whether some link of the sequence carries this path.
spec fn has_path(s: Seq<Link>, p: Seq<char>) -> bool {
    exists|i: int| 0 <= i < s.len() && s[i].path@ == p
}

impl View for Record {
    type V = NodeView;

    closed spec fn view(&self) -> NodeView {
        NodeView {
            value: value_view(self.value),
            links: links_map(self.links@),
            linked_by: ids_seq(self.linked_by@),
            subs: ids_seq(self.subscriptions@),
        }
    }
}

/// The table that a sequence of records denotes; a later record with the
/// same id would override an earlier one, but a well-formed store never
/// holds two.
spec fn recs_map(s: Seq<Record>) -> Map<int, NodeView>
    decreases s.len(),
{
    if s.len() == 0 {
        Map::empty()
    } else {
        recs_map(s.drop_last()).insert(s.last().id as int, s.last()@)
    }
}

/// No two records of the sequence share an id.
spec fn ids_unique(s: Seq<Record>) -> bool {
    forall|i: int, j: int|
        #![trigger s[i].id, s[j].id]
        0 <= i < s.len() && 0 <= j < s.len() && i != j ==> s[i].id != s[j].id
}

/// Whether some record of the sequence carries this id.
spec fn has_id(s: Seq<Record>, id: int) -> bool {
    exists|i: int| 0 <= i < s.len() && s[i].id as int == id
}

/// The views of a sequence of notes.
pub open spec fn notes_views(s: Seq<Note>) -> Seq<NoteView> {
    s.map_values(|n: Note| n@)
}

proof fn lemma_ids_seq_push(s: Seq<usize>, x: usize)
    ensures
        ids_seq(s.push(x)) == ids_seq(s).push(x as int),
{
    assert(ids_seq(s.push(x)) =~= ids_seq(s).push(x as int));
}

proof fn lemma_paths_unique_drop_last(s: Seq<Link>)
    requires
        paths_unique(s),
        s.len() > 0,
    ensures
        paths_unique(s.drop_last()),
{
    assert forall|i: int, j: int|
        0 <= i < s.drop_last().len() && 0 <= j < s.drop_last().len() && i
            != j implies s.drop_last()[i].path@ != s.drop_last()[j].path@ by {
        assert(s.drop_last()[i] == s[i]);
        assert(s.drop_last()[j] == s[j]);
    }
}

proof fn lemma_links_map_index(s: Seq<Link>, i: int)
    requires
        paths_unique(s),
        0 <= i < s.len(),
    ensures
        links_map(s).dom().contains(s[i].path@),
        links_map(s)[s[i].path@] == s[i].child as int,
    decreases s.len(),
{
    if i < s.len() - 1 {
        lemma_paths_unique_drop_last(s);
        lemma_links_map_index(s.drop_last(), i);
        assert(s.drop_last()[i] == s[i]);
        assert(s.last().path@ != s[i].path@);
    }
}

proof fn lemma_links_map_dom(s: Seq<Link>, p: Seq<char>)
    ensures
        links_map(s).dom().contains(p) <==> has_path(s, p),
    decreases s.len(),
{
    if s.len() > 0 {
        lemma_links_map_dom(s.drop_last(), p);
        if s.last().path@ == p {
            assert(s[s.len() - 1].path@ == p);
        } else {
            if has_path(s.drop_last(), p) {
                let i = choose|i: int|
                    0 <= i < s.drop_last().len() && s.drop_last()[i].path@ == p;
                assert(s[i].path@ == p);
            }
            if has_path(s, p) {
                let i = choose|i: int| 0 <= i < s.len() && s[i].path@ == p;
                assert(i < s.len() - 1);
                assert(s.drop_last()[i].path@ == p);
            }
        }
    }
}

proof fn lemma_links_map_update(s: Seq<Link>, i: int, l: Link)
    requires
        paths_unique(s),
        0 <= i < s.len(),
        l.path@ == s[i].path@,
    ensures
        links_map(s.update(i, l)) == links_map(s).insert(l.path@, l.child as int),
    decreases s.len(),
{
    let t = s.update(i, l);
    if i == s.len() - 1 {
        assert(t.drop_last() =~= s.drop_last());
        assert(t.last() == l);
        assert(links_map(t) =~= links_map(s).insert(l.path@, l.child as int));
    } else {
        lemma_paths_unique_drop_last(s);
        assert(t.drop_last() =~= s.drop_last().update(i, l));
        lemma_links_map_update(s.drop_last(), i, l);
        assert(t.last() == s.last());
        assert(s.last().path@ != s[i].path@);
        assert(links_map(t) =~= links_map(s).insert(l.path@, l.child as int));
    }
}

proof fn lemma_links_map_push(s: Seq<Link>, l: Link)
    ensures
        links_map(s.push(l)) == links_map(s).insert(l.path@, l.child as int),
{
    assert(s.push(l).drop_last() =~= s);
    assert(s.push(l).last() == l);
}

proof fn lemma_ids_unique_drop_last(s: Seq<Record>)
    requires
        ids_unique(s),
        s.len() > 0,
    ensures
        ids_unique(s.drop_last()),
{
    assert forall|i: int, j: int|
        0 <= i < s.drop_last().len() && 0 <= j < s.drop_last().len() && i
            != j implies s.drop_last()[i].id != s.drop_last()[j].id by {
        assert(s.drop_last()[i] == s[i]);
        assert(s.drop_last()[j] == s[j]);
    }
}

proof fn lemma_recs_map_index(s: Seq<Record>, i: int)
    requires
        ids_unique(s),
        0 <= i < s.len(),
    ensures
        recs_map(s).dom().contains(s[i].id as int),
        recs_map(s)[s[i].id as int] == s[i]@,
    decreases s.len(),
{
    if i < s.len() - 1 {
        lemma_ids_unique_drop_last(s);
        lemma_recs_map_index(s.drop_last(), i);
        assert(s.drop_last()[i] == s[i]);
        assert(s.last().id != s[i].id);
    }
}

proof fn lemma_recs_map_dom(s: Seq<Record>, id: int)
    ensures
        recs_map(s).dom().contains(id) <==> has_id(s, id),
    decreases s.len(),
{
    if s.len() > 0 {
        lemma_recs_map_dom(s.drop_last(), id);
        if s.last().id as int == id {
            assert(s[s.len() - 1].id as int == id);
        } else {
            if has_id(s.drop_last(), id) {
                let i = choose|i: int|
                    0 <= i < s.drop_last().len() && s.drop_last()[i].id as int == id;
                assert(s[i].id as int == id);
            }
            if has_id(s, id) {
                let i = choose|i: int| 0 <= i < s.len() && s[i].id as int == id;
                assert(i < s.len() - 1);
                assert(s.drop_last()[i].id as int == id);
            }
        }
    }
}

proof fn lemma_recs_map_update(s: Seq<Record>, i: int, r: Record)
    requires
        ids_unique(s),
        0 <= i < s.len(),
        r.id == s[i].id,
    ensures
        recs_map(s.update(i, r)) == recs_map(s).insert(r.id as int, r@),
    decreases s.len(),
{
    let t = s.update(i, r);
    if i == s.len() - 1 {
        assert(t.drop_last() =~= s.drop_last());
        assert(t.last() == r);
        assert(recs_map(t) =~= recs_map(s).insert(r.id as int, r@));
    } else {
        lemma_ids_unique_drop_last(s);
        assert(t.drop_last() =~= s.drop_last().update(i, r));
        lemma_recs_map_update(s.drop_last(), i, r);
        assert(t.last() == s.last());
        assert(s.last().id != s[i].id);
        assert(recs_map(t) =~= recs_map(s).insert(r.id as int, r@));
    }
}

proof fn lemma_recs_map_push(s: Seq<Record>, r: Record)
    ensures
        recs_map(s.push(r)) == recs_map(s).insert(r.id as int, r@),
{
    assert(s.push(r).drop_last() =~= s);
    assert(s.push(r).last() == r);
}

/// The process-lifetime table owning every node record, and the counter
/// from which all ids are drawn.
pub struct Store {
    nodes: Vec<Record>,
    next_id: usize,
}

impl View for Store {
    type V = StoreView;

    closed spec fn view(&self) -> StoreView {
        StoreView { nodes: recs_map(self.nodes@), next_id: self.next_id as int }
    }
}

impl Store {
    /// The representation invariant: record ids are pairwise distinct and
    /// spent, each record's link paths are pairwise distinct, the root
    /// record stands first, and the table the records denote is well formed.
    pub closed spec fn wf(&self) -> bool {
        &&& ids_unique(self.nodes@)
        &&& forall|i: int| 0 <= i < self.nodes@.len() ==> (#[trigger] self.nodes@[i]).id
            < self.next_id
        &&& forall|i: int| 0 <= i < self.nodes@.len() ==> paths_unique(
            (#[trigger] self.nodes@[i]).links@,
        )
        &&& self.nodes@.len() >= 1
        &&& self.nodes@[0].id == 0
        &&& wf_view(self@)
    }

    /// The index of the record registered under `id`.
    fn index_of(&self, id: usize) -> (i: usize)
        requires
            has_id(self.nodes@, id as int),
        ensures
            i < self.nodes@.len(),
            self.nodes@[i as int].id == id,
    {
        let mut i: usize = 0;
        while i < self.nodes.len()
            invariant
                i <= self.nodes@.len(),
                has_id(self.nodes@, id as int),
                forall|k: int| 0 <= k < i ==> self.nodes@[k].id != id,
            decreases self.nodes@.len() - i,
        {
            if self.nodes[i].id == id {
                return i;
            }
            i += 1;
        }
        proof {
            let k = choose|k: int| 0 <= k < self.nodes@.len() && self.nodes@[k].id as int
                == id as int;
            assert(false);
        }
        unreached()
    }

    /// Whether `id` names a node of this store.
    pub fn contains(&self, id: usize) -> (r: bool)
        ensures
            r == id_in(self@, id as int),
    {
        proof {
            lemma_recs_map_dom(self.nodes@, id as int);
        }
        let mut i: usize = 0;
        while i < self.nodes.len()
            invariant
                i <= self.nodes@.len(),
                forall|k: int| 0 <= k < i ==> self.nodes@[k].id != id,
            decreases self.nodes@.len() - i,
        {
            if self.nodes[i].id == id {
                proof {
                    lemma_recs_map_dom(self.nodes@, id as int);
                    assert(has_id(self.nodes@, id as int)) by {
                        assert((i as int) < self.nodes@.len() && self.nodes@[i as int].id as int
                            == id as int);
                    }
                }
                return true;
            }
            i += 1;
        }
        proof {
            if has_id(self.nodes@, id as int) {
                let k = choose|k: int| 0 <= k < self.nodes@.len() && self.nodes@[k].id as int
                    == id as int;
                assert(false);
            }
        }
        false
    }

    /// Whether another id can still be drawn from the counter; false only
    /// once the machine-sized counter is spent.
    pub fn can_alloc(&self) -> (r: bool)
        ensures
            r == (self@.next_id < usize::MAX),
    {
        self.next_id < usize::MAX
    }
}

/// The index of the link carrying `path`, if any.
fn find_link(links: &Vec<Link>, path: &String) -> (r: Option<usize>)
    ensures
        match r {
            Some(j) => j < links@.len() && links@[j as int].path@ == path@,
            None => forall|k: int| 0 <= k < links@.len() ==> links@[k].path@ != path@,
        },
{
    let mut j: usize = 0;
    while j < links.len()
        invariant
            j <= links@.len(),
            forall|k: int| 0 <= k < j ==> links@[k].path@ != path@,
        decreases links@.len() - j,
    {
        if links[j].path == *path {
            return Some(j);
        }
        j += 1;
    }
    None
}

impl Store {
    /// Inserts the link `path -> child` into the record at `i`, overwriting
    /// a link that already carries `path`.
    fn set_link(&mut self, i: usize, path: String, child: usize)
        requires
            i < old(self).nodes@.len(),
            paths_unique(old(self).nodes@[i as int].links@),
        ensures
            final(self).next_id == old(self).next_id,
            final(self).nodes@.len() == old(self).nodes@.len(),
            final(self).nodes@ == old(self).nodes@.update(
                i as int,
                final(self).nodes@[i as int],
            ),
            ({
                let r0 = old(self).nodes@[i as int];
                let r1 = final(self).nodes@[i as int];
                &&& r1.id == r0.id
                &&& r1.value == r0.value
                &&& r1.linked_by == r0.linked_by
                &&& r1.subscriptions == r0.subscriptions
                &&& paths_unique(r1.links@)
                &&& links_map(r1.links@) == links_map(r0.links@).insert(path@, child as int)
            }),
    {
        let ghost links0 = self.nodes@[i as int].links@;
        let found = find_link(&self.nodes[i].links, &path);
        match found {
            Some(j) => {
                let rec = &mut self.nodes[i];
                rec.links[j] = Link { path, child };
                proof {
                    let nl = self.nodes@[i as int].links@;
                    let l = nl[j as int];
                    assert(nl == links0.update(j as int, l));
                    lemma_links_map_update(links0, j as int, l);
                    assert forall|a: int, b: int|
                        0 <= a < nl.len() && 0 <= b < nl.len() && a != b implies nl[a].path@
                        != nl[b].path@ by {
                        if a != j as int {
                            assert(nl[a] == links0[a]);
                        }
                        if b != j as int {
                            assert(nl[b] == links0[b]);
                        }
                        assert(nl[j as int].path@ == links0[j as int].path@);
                    }
                }
            },
            None => {
                let rec = &mut self.nodes[i];
                rec.links.push(Link { path, child });
                proof {
                    let nl = self.nodes@[i as int].links@;
                    let l = nl.last();
                    assert(nl == links0.push(l));
                    lemma_links_map_push(links0, l);
                    assert forall|a: int, b: int|
                        0 <= a < nl.len() && 0 <= b < nl.len() && a != b implies nl[a].path@
                        != nl[b].path@ by {
                        if a < links0.len() {
                            assert(nl[a] == links0[a]);
                        }
                        if b < links0.len() {
                            assert(nl[b] == links0[b]);
                        }
                    }
                }
            },
        }
    }
}

/// A handle to one node of a store: cloneable, and interchangeable with any
/// other handle carrying the same id.
#[derive(Clone, Copy, Debug)]
pub struct Node {
    pub id: usize,
}

impl Node {
    /// Creates a fresh graph: a store holding the root node alone, under the
    /// reserved id 0, and the root's handle.
    pub fn new() -> (r: (Store, Node))
        ensures
            r.0.wf(),
            r.0@ == root_view(),
            r.1.id == 0,
    {
        let root = Record {
            id: 0,
            value: None,
            links: Vec::new(),
            linked_by: Vec::new(),
            subscriptions: Vec::new(),
        };
        let mut nodes: Vec<Record> = Vec::new();
        nodes.push(root);
        let store = Store { nodes, next_id: 1 };
        proof {
            assert(store.nodes@.drop_last() =~= Seq::<Record>::empty());
            assert(recs_map(Seq::<Record>::empty()) == Map::<int, NodeView>::empty());
            assert(links_map(Seq::<Link>::empty()) == Map::<Seq<char>, int>::empty());
            assert(ids_seq(Seq::<usize>::empty()) =~= Seq::<int>::empty());
            assert(store@.nodes =~~= root_view().nodes);
            assert(store@ =~~= root_view());
        }
        (store, Node { id: 0 })
    }

    /// Allocates a fresh id, registers a new unset node under it with the
    /// parent record at `i` as its one back-link, links it from the parent
    /// under `path`, and returns the fresh id.
    fn new_child(store: &mut Store, i: usize, path: String) -> (child: usize)
        requires
            old(store).wf(),
            i < old(store).nodes@.len(),
            old(store)@.next_id < usize::MAX,
            !finds_existing(old(store)@, old(store).nodes@[i as int].id as int, path@),
        ensures
            final(store).wf(),
            final(store)@ == spec_get(old(store)@, old(store).nodes@[i as int].id as int, path@),
            child as int == old(store)@.next_id,
    {
        let ghost m = store@;
        let ghost pid = store.nodes@[i as int].id as int;
        let parent_id = store.nodes[i].id;
        proof {
            lemma_recs_map_index(store.nodes@, i as int);
            lemma_recs_map_dom(store.nodes@, store.next_id as int);
        }
        let id = store.next_id;
        store.next_id = store.next_id + 1;
        let mut linked_by: Vec<usize> = Vec::new();
        linked_by.push(parent_id);
        let node = Record {
            id,
            value: None,
            links: Vec::new(),
            linked_by,
            subscriptions: Vec::new(),
        };
        let ghost nodes0 = store.nodes@;
        store.nodes.push(node);
        let ghost nodes1 = store.nodes@;
        proof {
            lemma_recs_map_push(nodes0, nodes1.last());
            assert(links_map(Seq::<Link>::empty()) == Map::<Seq<char>, int>::empty());
            assert(ids_seq(Seq::<usize>::empty()) =~= Seq::<int>::empty());
            assert(ids_seq(nodes1.last().linked_by@) =~= seq![pid]);
            assert(nodes1.last()@ =~~= new_node_view(pid));
            assert forall|a: int, b: int|
                0 <= a < nodes1.len() && 0 <= b < nodes1.len() && a != b implies nodes1[a].id
                != nodes1[b].id by {
                if a < nodes0.len() && b < nodes0.len() {
                    assert(nodes1[a] == nodes0[a]);
                    assert(nodes1[b] == nodes0[b]);
                } else if a < nodes0.len() {
                    assert(nodes1[a] == nodes0[a]);
                    assert(nodes0[a].id < id);
                } else {
                    assert(nodes1[b] == nodes0[b]);
                    assert(nodes0[b].id < id);
                }
            }
            assert(paths_unique(nodes1[i as int].links@));
        }
        store.set_link(i, path, id);
        proof {
            let r1 = store.nodes@[i as int];
            assert(store.nodes@ == nodes1.update(i as int, r1));
            assert(nodes1[i as int] == nodes0[i as int]);
            lemma_recs_map_update(nodes1, i as int, r1);
            assert(pid < id);
            assert(r1@ =~~= (NodeView {
                value: m.nodes[pid].value,
                links: m.nodes[pid].links.insert(path@, id as int),
                linked_by: m.nodes[pid].linked_by,
                subs: m.nodes[pid].subs,
            }));
            assert(store@.nodes =~~= spec_get(m, pid, path@).nodes);
            assert(store@ =~~= spec_get(m, pid, path@));
            lemma_get_wf(m, pid, path@);
            assert forall|a: int, b: int|
                0 <= a < store.nodes@.len() && 0 <= b < store.nodes@.len() && a
                != b implies store.nodes@[a].id != store.nodes@[b].id by {
                if a != i as int {
                    assert(store.nodes@[a] == nodes1[a]);
                }
                if b != i as int {
                    assert(store.nodes@[b] == nodes1[b]);
                }
                assert(store.nodes@[i as int].id == nodes1[i as int].id);
            }
            assert forall|k: int| 0 <= k < store.nodes@.len() implies (
            #[trigger] store.nodes@[k]).id < store.next_id by {
                if k != i as int {
                    assert(store.nodes@[k] == nodes1[k]);
                }
            }
            assert forall|k: int| 0 <= k < store.nodes@.len() implies paths_unique(
                (#[trigger] store.nodes@[k]).links@,
            ) by {
                if k != i as int {
                    assert(store.nodes@[k] == nodes1[k]);
                    if k < nodes0.len() {
                        assert(nodes1[k] == nodes0[k]);
                    }
                }
            }
            assert(store.nodes@[0].id == 0);
        }
        id
    }

    /// Returns the id that `get(path)` descends to, creating the child node
    /// where none is linked, or unconditionally when this node is a leaf.
    fn get_child_id(&self, store: &mut Store, path: String) -> (child: usize)
        requires
            old(store).wf(),
            id_in(old(store)@, self.id as int),
            old(store)@.next_id < usize::MAX,
        ensures
            final(store).wf(),
            final(store)@ == spec_get(old(store)@, self.id as int, path@),
            child as int == spec_child_id(old(store)@, self.id as int, path@),
            id_in(final(store)@, child as int),
    {
        proof {
            lemma_recs_map_dom(store.nodes@, self.id as int);
        }
        let i = store.index_of(self.id);
        proof {
            lemma_recs_map_index(store.nodes@, i as int);
        }
        if store.nodes[i].value.is_some() {
            Self::new_child(store, i, path)
        } else {
            let found = find_link(&store.nodes[i].links, &path);
            match found {
                Some(j) => {
                    let c = store.nodes[i].links[j].child;
                    proof {
                        lemma_links_map_index(store.nodes@[i as int].links@, j as int);
                        assert(finds_existing(store@, self.id as int, path@));
                        assert(node_wf(store@, self.id as int));
                    }
                    c
                },
                None => {
                    proof {
                        lemma_links_map_dom(store.nodes@[i as int].links@, path@);
                        assert(!has_path(store.nodes@[i as int].links@, path@)) by {
                            if has_path(store.nodes@[i as int].links@, path@) {
                                let k = choose|k: int|
                                    0 <= k < store.nodes@[i as int].links@.len()
                                        && store.nodes@[i as int].links@[k].path@ == path@;
                                assert(false);
                            }
                        }
                        assert(!finds_existing(store@, self.id as int, path@));
                    }
                    Self::new_child(store, i, path)
                },
            }
        }
    }

    /// Traverses to the child of this node named `path`, creating it first
    /// where no link carries that name or where this node is a leaf (a leaf
    /// keeps its value and still gains the link: the store's deliberately
    /// permissive policy). Returns a handle to the child.
    ///
    /// The whole check-then-create step runs under one exclusive borrow of
    /// the store, so two callers racing on the same missing path cannot each
    /// create a child: check and insert are atomic by construction, and no
    /// orphan node is ever left behind.
    pub fn get(&self, store: &mut Store, path: String) -> (child: Node)
        requires
            old(store).wf(),
            id_in(old(store)@, self.id as int),
            old(store)@.next_id < usize::MAX,
        ensures
            final(store).wf(),
            final(store)@ == spec_get(old(store)@, self.id as int, path@),
            child.id as int == spec_child_id(old(store)@, self.id as int, path@),
            id_in(final(store)@, child.id as int),
    {
        let id = self.get_child_id(store, path);
        Node { id }
    }

    /// A placeholder of the store's public surface; does nothing yet.
    pub fn map(&self) {
    }

    /// The ids of the nodes that created this node as a child: provenance
    /// only, never used for ownership or cleanup.
    pub fn linked_by(&self, store: &Store) -> (r: Vec<usize>)
        requires
            store.wf(),
            id_in(store@, self.id as int),
        ensures
            ids_seq(r@) == store@.nodes[self.id as int].linked_by,
    {
        proof {
            lemma_recs_map_dom(store.nodes@, self.id as int);
        }
        let i = store.index_of(self.id);
        proof {
            lemma_recs_map_index(store.nodes@, i as int);
        }
        let mut r: Vec<usize> = Vec::new();
        let mut j: usize = 0;
        while j < store.nodes[i].linked_by.len()
            invariant
                i < store.nodes@.len(),
                j <= store.nodes@[i as int].linked_by@.len(),
                r@.len() == j,
                forall|k: int| 0 <= k < j ==> r@[k] == store.nodes@[i as int].linked_by@[k],
            decreases store.nodes@[i as int].linked_by@.len() - j,
        {
            r.push(store.nodes[i].linked_by[j]);
            j += 1;
        }
        proof {
            assert(ids_seq(r@) =~= ids_seq(store.nodes@[i as int].linked_by@));
        }
        r
    }

    /// Registers a subscription on this node and returns the fresh
    /// subscription id together with the value already present, if any. The
    /// host owning the callback delivers that value to it exactly once,
    /// synchronously, before using the id; every later `put` on this node
    /// then notifies the subscription through its returned notes.
    pub fn on(&self, store: &mut Store) -> (r: (usize, Option<String>))
        requires
            old(store).wf(),
            id_in(old(store)@, self.id as int),
            old(store)@.next_id < usize::MAX,
        ensures
            final(store).wf(),
            final(store)@ == spec_on_store(old(store)@, self.id as int),
            r.0 as int == spec_on_sub(old(store)@),
            value_view(r.1) == spec_on_replay(old(store)@, self.id as int),
    {
        proof {
            lemma_recs_map_dom(store.nodes@, self.id as int);
        }
        let i = store.index_of(self.id);
        proof {
            lemma_recs_map_index(store.nodes@, i as int);
        }
        let replay: Option<String> = match &store.nodes[i].value {
            Some(s) => Some(s.clone()),
            None => None,
        };
        let sub_id = store.next_id;
        store.next_id = store.next_id + 1;
        let ghost nodes0 = store.nodes@;
        let rec = &mut store.nodes[i];
        rec.subscriptions.push(sub_id);
        proof {
            let r1 = store.nodes@[i as int];
            assert(store.nodes@ == nodes0.update(i as int, r1));
            lemma_ids_seq_push(nodes0[i as int].subscriptions@, sub_id);
            lemma_recs_map_update(nodes0, i as int, r1);
            assert(store@ =~~= spec_on_store(old(store)@, self.id as int));
            lemma_on_wf(old(store)@, self.id as int);
            assert forall|k: int| 0 <= k < store.nodes@.len() implies paths_unique(
                (#[trigger] store.nodes@[k]).links@,
            ) by {
                if k != i as int {
                    assert(store.nodes@[k] == nodes0[k]);
                }
                assert(store.nodes@[k].links == nodes0[k].links);
            }
        }
        (sub_id, replay)
    }

    /// Replaces this node's value and clears its links, demoting a container
    /// to a leaf or refreshing a leaf. Children lose their link but stay in
    /// the store. Returns the notifications owed: one per live subscription,
    /// in registration order, each carrying the new value; the host delivers
    /// them synchronously, so a failing subscriber never aborts the put.
    pub fn put(&self, store: &mut Store, value: String) -> (notes: Vec<Note>)
        requires
            old(store).wf(),
            id_in(old(store)@, self.id as int),
        ensures
            final(store).wf(),
            final(store)@ == spec_put_store(old(store)@, self.id as int, value@),
            notes_views(notes@) == put_notes(old(store)@.nodes[self.id as int].subs, value@),
    {
        proof {
            lemma_recs_map_dom(store.nodes@, self.id as int);
        }
        let i = store.index_of(self.id);
        proof {
            lemma_recs_map_index(store.nodes@, i as int);
        }
        let mut notes: Vec<Note> = Vec::new();
        let mut j: usize = 0;
        while j < store.nodes[i].subscriptions.len()
            invariant
                i < store.nodes@.len(),
                j <= store.nodes@[i as int].subscriptions@.len(),
                notes@.len() == j,
                forall|k: int|
                    0 <= k < j ==> notes@[k]@ == (NoteView {
                        sub: store.nodes@[i as int].subscriptions@[k] as int,
                        value: value@,
                    }),
            decreases store.nodes@[i as int].subscriptions@.len() - j,
        {
            let s = store.nodes[i].subscriptions[j];
            notes.push(Note { sub: s, value: value.clone() });
            j += 1;
        }
        proof {
            assert(notes_views(notes@) =~= put_notes(
                ids_seq(store.nodes@[i as int].subscriptions@),
                value@,
            ));
        }
        let ghost nodes0 = store.nodes@;
        let rec = &mut store.nodes[i];
        rec.value = Some(value);
        rec.links = Vec::new();
        proof {
            let r1 = store.nodes@[i as int];
            assert(store.nodes@ == nodes0.update(i as int, r1));
            assert(links_map(Seq::<Link>::empty()) == Map::<Seq<char>, int>::empty());
            lemma_recs_map_update(nodes0, i as int, r1);
            assert(store@ =~~= spec_put_store(old(store)@, self.id as int, value@));
            lemma_put_wf(old(store)@, self.id as int, value@);
            assert forall|k: int| 0 <= k < store.nodes@.len() implies paths_unique(
                (#[trigger] store.nodes@[k]).links@,
            ) by {
                if k != i as int {
                    assert(store.nodes@[k] == nodes0[k]);
                }
            }
        }
        notes
    }
}

} // verus!

//! A graph that changes: nodes come, are replaced and go.

use vstd::prelude::*;

use crate::error::FastNoiseResult;
use crate::model::{ChangeView, FastNoiseChange, FastNoiseGraphSpec, GraphDimension, NodeSpec, NodeView};

verus! {

/// A graph: nodes with distinct names, in the order in which they came.
#[derive(Debug)]
pub struct FastNoiseState {
    dimension: GraphDimension,
    final_field: String,
    nodes: Vec<NodeSpec>,
}

/// The value of a [`FastNoiseState`], and of a graph specification.
pub struct StateView {
    pub dimension: GraphDimension,
    pub final_field: Seq<char>,
    pub nodes: Seq<NodeView>,
}

/// A list of nodes, each by its view.
pub open spec fn node_views(nodes: Seq<NodeSpec>) -> Seq<NodeView> {
    nodes.map_values(|node: NodeSpec| node@)
}

/// Some node has the name `id`.
pub open spec fn has_node(nodes: Seq<NodeView>, id: Seq<char>) -> bool {
    exists|i: int| 0 <= i < nodes.len() && (#[trigger] nodes[i]).id() == id
}

/// The place of the node with the name `id`.
pub open spec fn place_of(nodes: Seq<NodeView>, id: Seq<char>) -> int {
    choose|i: int| 0 <= i < nodes.len() && (#[trigger] nodes[i]).id() == id
}

/// No two nodes have the same name.
pub open spec fn distinct_ids(nodes: Seq<NodeView>) -> bool {
    forall|i: int, j: int|
        0 <= i < j < nodes.len() ==> (#[trigger] nodes[i]).id() != (#[trigger] nodes[j]).id()
}

/// The nodes with `node` in the place of the one with its name, or behind all
/// others where there is none.
pub open spec fn upserted(nodes: Seq<NodeView>, node: NodeView) -> Seq<NodeView> {
    if has_node(nodes, node.id()) {
        nodes.update(place_of(nodes, node.id()), node)
    } else {
        nodes.push(node)
    }
}

/// The nodes without the one with the name `id`.
pub open spec fn removed(nodes: Seq<NodeView>, id: Seq<char>) -> Seq<NodeView> {
    if has_node(nodes, id) {
        nodes.remove(place_of(nodes, id))
    } else {
        nodes
    }
}

/// The nodes after `added` have come one by one.
pub open spec fn upserted_all(nodes: Seq<NodeView>, added: Seq<NodeView>) -> Seq<NodeView>
    decreases added.len(),
{
    if added.len() == 0 {
        nodes
    } else {
        upserted(upserted_all(nodes, added.drop_last()), added.last())
    }
}

impl StateView {
    /// The state after a change.
    pub open spec fn changed(self, change: ChangeView) -> StateView {
        match change {
            ChangeView::UpsertNode(node) => StateView {
                nodes: upserted(self.nodes, node),
                ..self
            },
            ChangeView::RemoveNode(id) => StateView { nodes: removed(self.nodes, id), ..self },
            ChangeView::SetFinalField(id) => StateView { final_field: id, ..self },
        }
    }

    /// The state after changes, one by one.
    pub open spec fn changed_all(self, changes: Seq<ChangeView>) -> StateView
        decreases changes.len(),
    {
        if changes.len() == 0 {
            self
        } else {
            self.changed_all(changes.drop_last()).changed(changes.last())
        }
    }
}

impl View for FastNoiseGraphSpec {
    type V = StateView;

    open spec fn view(&self) -> StateView {
        StateView {
            dimension: self.dimension,
            final_field: self.final_field@,
            nodes: node_views(self.nodes@),
        }
    }
}

/// The state that a graph specification describes: where it names a node
/// twice, the later one counts, in the place of the earlier one.
pub open spec fn described(spec_view: StateView) -> StateView {
    StateView {
        dimension: spec_view.dimension,
        final_field: spec_view.final_field,
        nodes: upserted_all(Seq::empty(), spec_view.nodes),
    }
}

/// Changes, each by its view.
pub open spec fn change_views(changes: Seq<FastNoiseChange>) -> Seq<ChangeView> {
    changes.map_values(|change: FastNoiseChange| change@)
}

impl View for FastNoiseState {
    type V = StateView;

    closed spec fn view(&self) -> StateView {
        StateView {
            dimension: self.dimension,
            final_field: self.final_field@,
            nodes: node_views(self.nodes@),
        }
    }
}

pub(crate) proof fn lemma_place(nodes: Seq<NodeView>, i: int)
    requires
        distinct_ids(nodes),
        0 <= i < nodes.len(),
    ensures
        has_node(nodes, nodes[i].id()),
        place_of(nodes, nodes[i].id()) == i,
{
    let p = place_of(nodes, nodes[i].id());
    assert(0 <= p < nodes.len() && nodes[p].id() == nodes[i].id());
    if p < i {
        assert(nodes[p].id() != nodes[i].id());
    }
    if i < p {
        assert(nodes[i].id() != nodes[p].id());
    }
}

proof fn lemma_upserted_distinct(nodes: Seq<NodeView>, node: NodeView)
    requires
        distinct_ids(nodes),
    ensures
        distinct_ids(upserted(nodes, node)),
{
    let after = upserted(nodes, node);
    let id = node.id();
    if has_node(nodes, id) {
        let p = place_of(nodes, id);
        assert(0 <= p < nodes.len() && nodes[p].id() == id);
        assert forall|i: int| 0 <= i < after.len() implies (#[trigger] after[i]).id()
            == nodes[i].id() by {}
    } else {
        assert forall|i: int, j: int| 0 <= i < j < after.len() implies (#[trigger] after[i]).id()
            != (#[trigger] after[j]).id() by {
            assert(after[i] == nodes[i]);
            if j < nodes.len() {
                assert(after[j] == nodes[j]);
            }
        }
    }
}

proof fn lemma_removed_distinct(nodes: Seq<NodeView>, id: Seq<char>)
    requires
        distinct_ids(nodes),
    ensures
        distinct_ids(removed(nodes, id)),
{
    if has_node(nodes, id) {
        let p = place_of(nodes, id);
        let after = nodes.remove(p);
        assert(0 <= p < nodes.len());
        assert forall|i: int, j: int| 0 <= i < j < after.len() implies (#[trigger] after[i]).id()
            != (#[trigger] after[j]).id() by {
            let a = if i < p {
                i
            } else {
                i + 1
            };
            let b = if j < p {
                j
            } else {
                j + 1
            };
            assert(after[i] == nodes[a]);
            assert(after[j] == nodes[b]);
        }
    }
}

impl FastNoiseState {
    /// No two nodes have the same name.
    pub open spec fn wf(&self) -> bool {
        distinct_ids(self@.nodes)
    }

    pub fn from_spec(spec: &FastNoiseGraphSpec) -> (state: FastNoiseResult<Self>)
        ensures
            state is Ok,
            state->Ok_0.wf(),
            state->Ok_0@ == described(spec@),
    {
        let mut state = FastNoiseState {
            dimension: spec.dimension,
            final_field: spec.final_field.clone(),
            nodes: Vec::new(),
        };
        state.reset_from_spec(spec)?;
        Ok(state)
    }

    /// Replaces the whole graph.
    pub fn reset_from_spec(&mut self, spec: &FastNoiseGraphSpec) -> (done: FastNoiseResult<()>)
        ensures
            done is Ok,
            final(self).wf(),
            final(self)@ == described(spec@),
    {
        self.dimension = spec.dimension;
        self.final_field = spec.final_field.clone();
        self.nodes.clear();
        assert(self@.nodes =~= Seq::empty());
        let ghost added = spec@.nodes;
        let mut at: usize = 0;
        while at < spec.nodes.len()
            invariant
                at <= spec.nodes@.len(),
                added == node_views(spec.nodes@),
                self.wf(),
                self@.dimension == spec.dimension,
                self@.final_field == spec.final_field@,
                self@.nodes == upserted_all(Seq::empty(), added.take(at as int)),
            decreases spec.nodes@.len() - at,
        {
            self.upsert_node(spec.nodes[at].clone())?;
            at += 1;
            assert(added.take(at as int).drop_last() =~= added.take(at - 1));
        }
        assert(added.take(at as int) =~= added);
        Ok(())
    }

    /// Puts a node in the place of the one with its name, or behind all others.
    pub fn upsert_node(&mut self, node: NodeSpec) -> (done: FastNoiseResult<()>)
        requires
            old(self).wf(),
        ensures
            done is Ok,
            final(self).wf(),
            final(self)@ == old(self)@.changed(ChangeView::UpsertNode(node@)),
    {
        let ghost before = self@.nodes;
        let found = self.find(node.id());
        proof {
            lemma_upserted_distinct(before, node@);
        }
        let ghost new_node = node@;
        if let Some(place) = found {
            self.nodes.set(place, node);
            assert(self@.nodes =~= upserted(before, new_node));
            return Ok(());
        }
        self.nodes.push(node);
        assert(self@.nodes =~= upserted(before, new_node));
        Ok(())
    }

    /// Takes a node out; nothing happens where there is none with that name.
    pub fn remove_node(&mut self, id: &str) -> (done: FastNoiseResult<()>)
        requires
            old(self).wf(),
        ensures
            done is Ok,
            final(self).wf(),
            final(self)@ == old(self)@.changed(ChangeView::RemoveNode(id@)),
    {
        let ghost before = self@.nodes;
        proof {
            lemma_removed_distinct(before, id@);
        }
        let wanted = id.to_owned();
        if let Some(place) = self.find(&wanted) {
            let _gone = self.nodes.remove(place);
            assert(self@.nodes =~= removed(before, id@));
        }
        Ok(())
    }

    /// The place of the node with the name `id`.
    fn find(&self, id: &String) -> (place: Option<usize>)
        requires
            self.wf(),
        ensures
            match place {
                Some(place) => has_node(self@.nodes, id@) && place == place_of(self@.nodes, id@),
                None => !has_node(self@.nodes, id@),
            },
    {
        let mut at: usize = 0;
        while at < self.nodes.len()
            invariant
                self.wf(),
                at <= self.nodes@.len(),
                forall|i: int| 0 <= i < at ==> (#[trigger] self@.nodes[i]).id() != id@,
            decreases self.nodes@.len() - at,
        {
            assert(self@.nodes[at as int] == self.nodes@[at as int]@);
            if *self.nodes[at].id() == *id {
                proof {
                    lemma_place(self@.nodes, at as int);
                }
                return Some(at);
            }
            at += 1;
        }
        None
    }

    pub fn set_final_field(&mut self, id: &String)
        requires
            old(self).wf(),
        ensures
            final(self).wf(),
            final(self)@ == old(self)@.changed(ChangeView::SetFinalField(id@)),
    {
        self.final_field = id.clone();
    }

    pub fn dimension(&self) -> (dimension: GraphDimension)
        ensures
            dimension == self@.dimension,
    {
        self.dimension
    }

    pub fn final_field(&self) -> (id: &String)
        ensures
            id@ == self@.final_field,
    {
        &self.final_field
    }

    /// How many nodes there are.
    pub fn node_count(&self) -> (count: usize)
        ensures
            count == self@.nodes.len(),
    {
        self.nodes.len()
    }

    /// The node at `place`.
    pub fn node_at(&self, place: usize) -> (node: &NodeSpec)
        requires
            place < self@.nodes.len(),
        ensures
            node@ == self@.nodes[place as int],
    {
        &self.nodes[place]
    }
}

impl Clone for FastNoiseState {
    fn clone(&self) -> (copy: Self)
        ensures
            copy@ == self@,
    {
        let mut nodes: Vec<NodeSpec> = Vec::new();
        let mut at: usize = 0;
        while at < self.nodes.len()
            invariant
                at <= self.nodes@.len(),
                nodes@.len() == at,
                forall|i: int| 0 <= i < at ==> (#[trigger] nodes@[i])@ == self.nodes@[i]@,
            decreases self.nodes@.len() - at,
        {
            nodes.push(self.nodes[at].clone());
            at += 1;
        }
        assert(node_views(nodes@) =~= node_views(self.nodes@));
        FastNoiseState {
            dimension: self.dimension,
            final_field: self.final_field.clone(),
            nodes,
        }
    }
}

/// Makes changes one by one.
pub fn apply_changes(state: &mut FastNoiseState, changes: &[FastNoiseChange]) -> (done:
    FastNoiseResult<()>)
    requires
        old(state).wf(),
    ensures
        done is Ok,
        final(state).wf(),
        final(state)@ == old(state)@.changed_all(change_views(changes@)),
{
    let ghost before = state@;
    let ghost all = change_views(changes@);
    let mut at: usize = 0;
    while at < changes.len()
        invariant
            at <= changes@.len(),
            all == change_views(changes@),
            state.wf(),
            state@ == before.changed_all(all.take(at as int)),
        decreases changes@.len() - at,
    {
        match &changes[at] {
            FastNoiseChange::UpsertNode(node) => {
                state.upsert_node(node.clone())?;
            },
            FastNoiseChange::RemoveNode { id } => {
                state.remove_node(id.as_str())?;
            },
            FastNoiseChange::SetFinalField { id } => {
                state.set_final_field(id);
            },
        }
        at += 1;
        assert(all.take(at as int).drop_last() =~= all.take(at - 1));
    }
    assert(all.take(at as int) =~= all);
    Ok(())
}

/// The node with the name `id`.
pub open spec fn node_named(nodes: Seq<NodeView>, id: Seq<char>) -> Option<NodeView> {
    if has_node(nodes, id) {
        Some(nodes[place_of(nodes, id)])
    } else {
        None
    }
}

/// Changes keep names distinct.
pub proof fn law_names_stay_distinct(state: StateView, changes: Seq<ChangeView>)
    requires
        distinct_ids(state.nodes),
    ensures
        distinct_ids(state.changed_all(changes).nodes),
    decreases changes.len(),
{
    if changes.len() > 0 {
        law_names_stay_distinct(state, changes.drop_last());
        let before = state.changed_all(changes.drop_last());
        match changes.last() {
            ChangeView::UpsertNode(node) => lemma_upserted_distinct(before.nodes, node),
            ChangeView::RemoveNode(id) => lemma_removed_distinct(before.nodes, id),
            ChangeView::SetFinalField(_) => {},
        }
    }
}

/// After a node came, its name leads to it, and every other name to what it led
/// to before.
pub proof fn law_upsert_is_found(nodes: Seq<NodeView>, node: NodeView, id: Seq<char>)
    requires
        distinct_ids(nodes),
    ensures
        node_named(upserted(nodes, node), id) == if id == node.id() {
            Some(node)
        } else {
            node_named(nodes, id)
        },
{
    let after = upserted(nodes, node);
    lemma_upserted_distinct(nodes, node);
    let p = if has_node(nodes, node.id()) {
        place_of(nodes, node.id())
    } else {
        nodes.len() as int
    };
    assert(after[p] == node);
    if id == node.id() {
        lemma_place(after, p);
    } else if has_node(nodes, id) {
        let q = place_of(nodes, id);
        assert(0 <= q < nodes.len() && nodes[q].id() == id);
        assert(after[q] == nodes[q]);
        lemma_place(after, q);
    } else if has_node(after, id) {
        let q = place_of(after, id);
        assert(0 <= q < after.len() && after[q].id() == id);
        assert(after[q] == nodes[q]);
    }
}

/// After a node went, its name leads nowhere, and every other name to what it
/// led to before.
pub proof fn law_removed_is_gone(nodes: Seq<NodeView>, gone: Seq<char>, id: Seq<char>)
    requires
        distinct_ids(nodes),
    ensures
        node_named(removed(nodes, gone), id) == if id == gone {
            None
        } else {
            node_named(nodes, id)
        },
{
    let after = removed(nodes, gone);
    lemma_removed_distinct(nodes, gone);
    if has_node(nodes, gone) {
        let p = place_of(nodes, gone);
        assert(0 <= p < nodes.len() && nodes[p].id() == gone);
        if has_node(after, id) {
            let q = place_of(after, id);
            assert(0 <= q < after.len() && after[q].id() == id);
            let o = if q < p {
                q
            } else {
                q + 1
            };
            assert(after[q] == nodes[o]);
            lemma_place(nodes, p);
            lemma_place(nodes, o);
        } else if id != gone && has_node(nodes, id) {
            let q = place_of(nodes, id);
            assert(0 <= q < nodes.len() && nodes[q].id() == id);
            let o = if q < p {
                q
            } else {
                q - 1
            };
            assert(after[o] == nodes[q]);
        }
    }
}

/// Taking a node out undoes that it came under a new name.
pub proof fn law_remove_undoes_insert(nodes: Seq<NodeView>, node: NodeView)
    requires
        distinct_ids(nodes),
        !has_node(nodes, node.id()),
    ensures
        removed(upserted(nodes, node), node.id()) == nodes,
{
    let after = upserted(nodes, node);
    lemma_upserted_distinct(nodes, node);
    assert(after[nodes.len() as int] == node);
    lemma_place(after, nodes.len() as int);
    assert(after.remove(nodes.len() as int) =~= nodes);
}

/// Of two nodes that come under one name the later one counts.
pub proof fn law_later_upsert_counts(nodes: Seq<NodeView>, first: NodeView, second: NodeView)
    requires
        distinct_ids(nodes),
        first.id() == second.id(),
    ensures
        upserted(upserted(nodes, first), second) == upserted(nodes, second),
{
    let between = upserted(nodes, first);
    lemma_upserted_distinct(nodes, first);
    let p = if has_node(nodes, first.id()) {
        place_of(nodes, first.id())
    } else {
        nodes.len() as int
    };
    assert(between[p] == first);
    lemma_place(between, p);
    assert(between.update(p, second) =~= upserted(nodes, second));
}

/// Changes made in two goes are the changes made in one.
pub proof fn law_changes_compose(state: StateView, first: Seq<ChangeView>, second: Seq<ChangeView>)
    ensures
        state.changed_all(first + second) == state.changed_all(first).changed_all(second),
    decreases second.len(),
{
    if second.len() == 0 {
        assert(first + second =~= first);
    } else {
        law_changes_compose(state, first, second.drop_last());
        assert((first + second).drop_last() =~= first + second.drop_last());
        assert((first + second).last() == second.last());
    }
}

/// A specification with distinct names describes just its own nodes, and every
/// specification describes nodes with distinct names.
pub proof fn law_described_nodes(nodes: Seq<NodeView>)
    ensures
        distinct_ids(upserted_all(Seq::empty(), nodes)),
        distinct_ids(nodes) ==> upserted_all(Seq::empty(), nodes) == nodes,
    decreases nodes.len(),
{
    if nodes.len() == 0 {
        assert(nodes =~= Seq::empty());
    } else {
        let rest = nodes.drop_last();
        law_described_nodes(rest);
        lemma_upserted_distinct(upserted_all(Seq::empty(), rest), nodes.last());
        if distinct_ids(nodes) {
            assert forall|i: int, j: int| 0 <= i < j < rest.len() implies (
            #[trigger] rest[i]).id() != (#[trigger] rest[j]).id() by {
                assert(rest[i] == nodes[i]);
                assert(rest[j] == nodes[j]);
            }
            if has_node(rest, nodes.last().id()) {
                let p = place_of(rest, nodes.last().id());
                assert(0 <= p < rest.len() && rest[p].id() == nodes.last().id());
                assert(nodes[p] == rest[p]);
            }
            assert(rest.push(nodes.last()) =~= nodes);
        }
    }
}

/// A node that comes takes the place of the one with its name, and comes last
/// where there is none; all other nodes stay where they are, and so does what is
/// asked for.
pub proof fn law_upsert_replaces_or_appends(state: StateView, node: NodeView)
    requires
        distinct_ids(state.nodes),
    ensures
        ({
            let after = state.changed(ChangeView::UpsertNode(node));
            &&& after.dimension == state.dimension
            &&& after.final_field == state.final_field
            &&& forall|i: int|
                0 <= i < state.nodes.len() ==> #[trigger] after.nodes[i] == if state.nodes[i].id()
                    == node.id() {
                    node
                } else {
                    state.nodes[i]
                }
            &&& (exists|i: int|
                0 <= i < state.nodes.len() && (#[trigger] state.nodes[i]).id() == node.id())
                ==> after.nodes.len() == state.nodes.len()
            &&& !(exists|i: int|
                0 <= i < state.nodes.len() && (#[trigger] state.nodes[i]).id() == node.id())
                ==> after.nodes == state.nodes.push(node)
        }),
{
    let after = state.changed(ChangeView::UpsertNode(node));
    assert forall|i: int| 0 <= i < state.nodes.len() implies #[trigger] after.nodes[i]
        == if state.nodes[i].id() == node.id() {
        node
    } else {
        state.nodes[i]
    } by {
        if state.nodes[i].id() == node.id() {
            lemma_place(state.nodes, i);
        } else if has_node(state.nodes, node.id()) {
            let p = place_of(state.nodes, node.id());
            assert(0 <= p < state.nodes.len() && state.nodes[p].id() == node.id());
        }
    }
}

/// Taking a node out leaves the nodes with other names, in their order, and
/// changes nothing else.
pub proof fn law_remove_keeps_the_others(state: StateView, id: Seq<char>, i: int)
    requires
        distinct_ids(state.nodes),
        0 <= i < state.nodes.len(),
    ensures
        ({
            let after = state.changed(ChangeView::RemoveNode(id));
            &&& after.dimension == state.dimension
            &&& after.final_field == state.final_field
            &&& (forall|k: int|
                0 <= k < state.nodes.len() ==> (#[trigger] state.nodes[k]).id() != id)
                ==> after.nodes == state.nodes
            &&& state.nodes[i].id() == id ==> after.nodes == state.nodes.take(i)
                + state.nodes.skip(i + 1)
        }),
{
    if state.nodes[i].id() == id {
        lemma_place(state.nodes, i);
        assert(state.nodes.remove(i) =~= state.nodes.take(i) + state.nodes.skip(i + 1));
    }
}

/// Asking for another field changes nothing else.
pub proof fn law_final_field_is_set(state: StateView, id: Seq<char>)
    ensures
        state.changed(ChangeView::SetFinalField(id)).final_field == id,
        state.changed(ChangeView::SetFinalField(id)).nodes == state.nodes,
        state.changed(ChangeView::SetFinalField(id)).dimension == state.dimension,
{
}

/// No change leaves a graph as it is, and the last of some changes comes after all
/// others.
pub proof fn law_changes_come_in_order(
    state: StateView,
    changes: Seq<ChangeView>,
    change: ChangeView,
)
    ensures
        state.changed_all(Seq::empty()) == state,
        state.changed_all(changes.push(change)) == state.changed_all(changes).changed(change),
{
    assert(changes.push(change).drop_last() =~= changes);
}

/// A specification describes a graph of its dimension, with the field that it asks
/// for, as if its nodes came one by one to an empty graph.
pub proof fn law_description_is_followed(spec_view: StateView, node: NodeView)
    ensures
        described(spec_view).dimension == spec_view.dimension,
        described(spec_view).final_field == spec_view.final_field,
        spec_view.nodes.len() == 0 ==> described(spec_view).nodes.len() == 0,
        described(StateView { nodes: spec_view.nodes.push(node), ..spec_view }).nodes == described(
            spec_view,
        ).changed(ChangeView::UpsertNode(node)).nodes,
{
    assert(spec_view.nodes.push(node).drop_last() =~= spec_view.nodes);
}

/// The value of a specification holds its dimension, the field that it asks for and
/// its nodes, in their order.
pub proof fn law_spec_values_hold_the_spec(graph: FastNoiseGraphSpec)
    ensures
        graph@.dimension == graph.dimension,
        graph@.final_field == graph.final_field@,
        graph@.nodes.len() == graph.nodes@.len(),
        forall|i: int|
            0 <= i < graph.nodes@.len() ==> #[trigger] graph@.nodes[i] == graph.nodes@[i]@,
{
}

} // verus!

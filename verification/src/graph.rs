//! The nodes of a graph while it is compiled: names become handles, and handles
//! become the slots that a plan gives to nodes.

use vstd::prelude::*;

use crate::error::{ErrorView, FastNoiseError, FastNoiseResult, invalid_spec, outcome};
use crate::model::{BufferLayout, BufferSlot, BufferSpec, ElementKind, NodeSpec, NodeView, OutputKind, PositionSlots, PositionSource, SLOT_BASE_X, SLOT_BASE_Y, SLOT_BASE_Z, SourceView, texts};
use crate::order::NodeHandle;
use crate::state::{FastNoiseState, distinct_ids, has_node, lemma_place, place_of};
use crate::text::joined;

verus! {

/// The refusal of a name that no node has.
pub open spec fn missing_node(id: Seq<char>) -> ErrorView {
    ErrorView::InvalidSpec("missing node '"@ + id + "'"@)
}

/// The node with the name `id`.
pub open spec fn handle_of(nodes: Seq<NodeView>, id: Seq<char>) -> Result<NodeHandle, ErrorView> {
    if has_node(nodes, id) {
        Ok(NodeHandle(place_of(nodes, id) as usize))
    } else {
        Err(missing_node(id))
    }
}

/// The nodes with the given names; the first name that no node has is refused.
pub open spec fn handles_of(nodes: Seq<NodeView>, ids: Seq<Seq<char>>) -> Result<
    Seq<NodeHandle>,
    ErrorView,
>
    decreases ids.len(),
{
    if ids.len() == 0 {
        Ok(Seq::empty())
    } else {
        match handles_of(nodes, ids.drop_last()) {
            Err(error) => Err(error),
            Ok(before) => match handle_of(nodes, ids.last()) {
                Err(error) => Err(error),
                Ok(handle) => Ok(before.push(handle)),
            },
        }
    }
}

/// The dependency lists of the first `count` nodes; the first name that no node
/// has is refused.
pub open spec fn dependency_lists(nodes: Seq<NodeView>, count: nat) -> Result<
    Seq<Seq<NodeHandle>>,
    ErrorView,
>
    decreases count,
{
    if count == 0 {
        Ok(Seq::empty())
    } else {
        match dependency_lists(nodes, (count - 1) as nat) {
            Err(error) => Err(error),
            Ok(before) => match handles_of(nodes, nodes[count - 1].reads()) {
                Err(error) => Err(error),
                Ok(list) => Ok(before.push(list)),
            },
        }
    }
}

/// The nodes of a graph, with what they produce.
pub struct CompileNodes<'a> {
    pub nodes: Vec<&'a NodeSpec>,
    pub outputs: Vec<OutputKind>,
}

impl<'a> CompileNodes<'a> {
    /// The nodes, each by its view.
    pub open spec fn views(self) -> Seq<NodeView> {
        self.nodes@.map_values(|node: &NodeSpec| node@)
    }

    /// No two nodes have the same name, and each has an output.
    pub open spec fn wf(self) -> bool {
        &&& distinct_ids(self.views())
        &&& self.outputs@.len() == self.nodes@.len()
    }

    pub fn build(state: &'a FastNoiseState) -> (graph: FastNoiseResult<Self>)
        requires
            state.wf(),
        ensures
            graph is Ok,
            graph->Ok_0.wf(),
            graph->Ok_0.views() == state@.nodes,
            forall|i: int|
                0 <= i < state@.nodes.len() ==> #[trigger] graph->Ok_0.outputs@[i]
                    == state@.nodes[i].output_kind(state@.dimension),
    {
        let mut nodes: Vec<&'a NodeSpec> = Vec::new();
        let mut outputs: Vec<OutputKind> = Vec::new();
        let count = state.node_count();
        let mut at: usize = 0;
        while at < count
            invariant
                at <= count,
                count == state@.nodes.len(),
                nodes@.len() == at,
                outputs@.len() == at,
                forall|i: int| 0 <= i < at ==> (#[trigger] nodes@[i])@ == state@.nodes[i],
                forall|i: int|
                    0 <= i < at ==> #[trigger] outputs@[i] == state@.nodes[i].output_kind(
                        state@.dimension,
                    ),
            decreases count - at,
        {
            let node = state.node_at(at);
            nodes.push(node);
            outputs.push(node.output_kind(state.dimension()));
            at += 1;
        }
        let graph = CompileNodes { nodes, outputs };
        assert(graph.views() =~= state@.nodes);
        Ok(graph)
    }

    pub fn len(&self) -> (count: usize)
        ensures
            count == self.views().len(),
    {
        self.nodes.len()
    }

    /// All nodes, in order.
    pub fn handles(&self) -> (handles: Vec<NodeHandle>)
        ensures
            handles@.len() == self.views().len(),
            forall|i: int| 0 <= i < handles@.len() ==> #[trigger] handles@[i] == NodeHandle(
                i as usize,
            ),
    {
        let mut handles: Vec<NodeHandle> = Vec::new();
        let mut at: usize = 0;
        while at < self.nodes.len()
            invariant
                at <= self.nodes@.len(),
                handles@.len() == at,
                forall|i: int| 0 <= i < at ==> #[trigger] handles@[i] == NodeHandle(i as usize),
            decreases self.nodes@.len() - at,
        {
            handles.push(NodeHandle(at));
            at += 1;
        }
        handles
    }

    pub fn node(&self, handle: NodeHandle) -> (node: &'a NodeSpec)
        requires
            handle.0 < self.views().len(),
        ensures
            node@ == self.views()[handle.0 as int],
    {
        self.nodes[handle.index()]
    }

    pub fn output(&self, handle: NodeHandle) -> (output: OutputKind)
        requires
            handle.0 < self.outputs@.len(),
        ensures
            output == self.outputs@[handle.0 as int],
    {
        self.outputs[handle.index()]
    }

    /// The node with the name `id`.
    pub fn resolve(&self, id: &str) -> (handle: Option<NodeHandle>)
        requires
            self.wf(),
        ensures
            match handle {
                Some(handle) => {
                    &&& handle_of(self.views(), id@) == Ok::<NodeHandle, ErrorView>(handle)
                    &&& handle.0 == place_of(self.views(), id@)
                    &&& handle.0 < self.views().len()
                },
                None => !has_node(self.views(), id@),
            },
    {
        let wanted = id.to_owned();
        let mut at: usize = 0;
        while at < self.nodes.len()
            invariant
                self.wf(),
                wanted@ == id@,
                at <= self.nodes@.len(),
                forall|i: int| 0 <= i < at ==> (#[trigger] self.views()[i]).id() != id@,
            decreases self.nodes@.len() - at,
        {
            assert(self.views()[at as int] == self.nodes@[at as int]@);
            if *self.nodes[at].id() == wanted {
                proof {
                    lemma_place(self.views(), at as int);
                }
                return Some(NodeHandle(at));
            }
            at += 1;
        }
        None
    }
}

/// The node with the name `id`.
pub fn resolve_node(graph: &CompileNodes<'_>, id: &str) -> (handle: FastNoiseResult<NodeHandle>)
    requires
        graph.wf(),
    ensures
        match handle {
            Ok(handle) => {
                &&& handle_of(graph.views(), id@) == Ok::<NodeHandle, ErrorView>(handle)
                &&& handle.0 == place_of(graph.views(), id@)
                &&& handle.0 < graph.views().len()
            },
            Err(error) => handle_of(graph.views(), id@) == Err::<NodeHandle, ErrorView>(error@),
        },
{
    match graph.resolve(id) {
        Some(handle) => Ok(handle),
        None => {
            let text = joined("missing node '", id);
            Err(FastNoiseError::InvalidSpec(joined(text.as_str(), "'")))
        },
    }
}

/// The node that positions come from, if they come from a node.
pub fn position_source_dependency(source: &PositionSource, graph: &CompileNodes<'_>) -> (handle:
    FastNoiseResult<Option<NodeHandle>>)
    requires
        graph.wf(),
    ensures
        match source@ {
            SourceView::Base => handle == Ok::<Option<NodeHandle>, FastNoiseError>(None),
            SourceView::Node(id) => match handle {
                Ok(found) => {
                    &&& found is Some
                    &&& handle_of(graph.views(), id) == Ok::<NodeHandle, ErrorView>(found->0)
                    &&& (found->0).0 < graph.views().len()
                },
                Err(error) => handle_of(graph.views(), id) == Err::<NodeHandle, ErrorView>(error@),
            },
        },
{
    match source {
        PositionSource::Base => Ok(None),
        PositionSource::Node(id) => Ok(Some(resolve_node(graph, id.as_str())?)),
    }
}

/// The dependencies of a node whose positions come from `source`.
fn source_dependencies(source: &PositionSource, graph: &CompileNodes<'_>) -> (deps: FastNoiseResult<
    Vec<NodeHandle>,
>)
    requires
        graph.wf(),
    ensures
        outcome(deps) == handles_of(
            graph.views(),
            match source@ {
                SourceView::Base => Seq::empty(),
                SourceView::Node(id) => seq![id],
            },
        ),
        deps is Ok ==> forall|i: int|
            0 <= i < deps->Ok_0@.len() ==> (#[trigger] deps->Ok_0@[i]).0 < graph.views().len(),
{
    let found = position_source_dependency(source, graph);
    proof {
        if let SourceView::Node(id) = source@ {
            assert(seq![id].drop_last() =~= Seq::empty());
            assert(handles_of(graph.views(), seq![id].drop_last()) == Ok::<
                Seq<NodeHandle>,
                ErrorView,
            >(Seq::empty()));
        }
    }
    let mut list: Vec<NodeHandle> = Vec::new();
    if let Some(handle) = found? {
        list.push(handle);
    }
    Ok(list)
}

/// What a node depends on, in the order in which it names it.
pub fn collect_dependencies(graph: &CompileNodes<'_>, handle: NodeHandle) -> (deps: FastNoiseResult<
    Vec<NodeHandle>,
>)
    requires
        graph.wf(),
        handle.0 < graph.views().len(),
    ensures
        outcome(deps) == handles_of(graph.views(), graph.views()[handle.0 as int].reads()),
        deps is Ok ==> forall|i: int|
            0 <= i < deps->Ok_0@.len() ==> (#[trigger] deps->Ok_0@[i]).0 < graph.views().len(),
{
    match graph.node(handle) {
        NodeSpec::Warp2D(node) => source_dependencies(&node.source, graph),
        NodeSpec::Warp3D(node) => source_dependencies(&node.source, graph),
        NodeSpec::Sample2D(node) => source_dependencies(&node.source, graph),
        NodeSpec::Sample3D(node) => source_dependencies(&node.source, graph),
        NodeSpec::Combine(node) => {
            let ghost ids = texts(node.inputs@);
            let mut list: Vec<NodeHandle> = Vec::new();
            let mut at: usize = 0;
            while at < node.inputs.len()
                invariant
                    graph.wf(),
                    handle.0 < graph.views().len(),
                    graph.views()[handle.0 as int].reads() == ids,
                    at <= node.inputs@.len(),
                    ids == texts(node.inputs@),
                    handles_of(graph.views(), ids.take(at as int)) == Ok::<
                        Seq<NodeHandle>,
                        ErrorView,
                    >(list@),
                    forall|i: int|
                        0 <= i < list@.len() ==> (#[trigger] list@[i]).0 < graph.views().len(),
                decreases node.inputs@.len() - at,
            {
                assert(ids.take(at + 1).drop_last() =~= ids.take(at as int));
                assert(ids.take(at + 1).last() == node.inputs@[at as int]@);
                match resolve_node(graph, node.inputs[at].as_str()) {
                    Ok(dep) => {
                        list.push(dep);
                    },
                    Err(error) => {
                        proof {
                            lemma_refusal_stays(graph.views(), ids, at + 1);
                        }
                        return Err(error);
                    },
                }
                at += 1;
            }
            assert(ids.take(at as int) =~= ids);
            Ok(list)
        },
    }
}

/// A list of names is refused for the first of them that is.
proof fn lemma_refusal_stays(nodes: Seq<NodeView>, ids: Seq<Seq<char>>, k: int)
    requires
        0 <= k <= ids.len(),
        handles_of(nodes, ids.take(k)) is Err,
    ensures
        handles_of(nodes, ids) == handles_of(nodes, ids.take(k)),
    decreases ids.len(),
{
    if k == ids.len() {
        assert(ids.take(k) =~= ids);
    } else {
        assert(ids.drop_last().take(k) =~= ids.take(k));
        lemma_refusal_stays(nodes, ids.drop_last(), k);
    }
}

/// The slots of the positions that `slots` holds for a node.
pub fn expect_position_slots<const N: usize>(
    slots: &[Option<PositionSlots<N>>],
    handle: NodeHandle,
) -> (found: FastNoiseResult<PositionSlots<N>>)
    requires
        handle.0 < slots@.len(),
    ensures
        match slots@[handle.0 as int] {
            Some(held) => found == Ok::<PositionSlots<N>, FastNoiseError>(held),
            None => found is Err && found->Err_0@ == ErrorView::InvalidSpec(
                "missing position slots"@,
            ),
        },
{
    match slots[handle.index()] {
        Some(held) => Ok(held),
        None => Err(invalid_spec("missing position slots")),
    }
}

/// The slot of the field that `slots` holds for a node.
pub fn expect_scalar_slot(slots: &[Option<BufferSlot>], handle: NodeHandle) -> (found:
    FastNoiseResult<BufferSlot>)
    requires
        handle.0 < slots@.len(),
    ensures
        match slots@[handle.0 as int] {
            Some(held) => found == Ok::<BufferSlot, FastNoiseError>(held),
            None => found is Err && found->Err_0@ == ErrorView::InvalidSpec(
                "missing scalar slot"@,
            ),
        },
{
    match slots[handle.index()] {
        Some(held) => Ok(held),
        None => Err(invalid_spec("missing scalar slot")),
    }
}

/// The slots of the positions that a node reads: those of the grid, or those
/// held for the node that they come from.
pub fn resolve_position_source<const N: usize>(
    source: &PositionSource,
    graph: &CompileNodes<'_>,
    position_slots: &[Option<PositionSlots<N>>],
    base_slots: PositionSlots<N>,
) -> (slots: FastNoiseResult<PositionSlots<N>>)
    requires
        graph.wf(),
        source@ matches SourceView::Node(id) ==> (has_node(graph.views(), id) ==> place_of(
            graph.views(),
            id,
        ) < position_slots@.len()),
    ensures
        match source@ {
            SourceView::Base => slots == Ok::<PositionSlots<N>, FastNoiseError>(base_slots),
            SourceView::Node(id) => if !has_node(graph.views(), id) {
                slots is Err && slots->Err_0@ == missing_node(id)
            } else {
                match position_slots@[place_of(graph.views(), id)] {
                    Some(held) => slots == Ok::<PositionSlots<N>, FastNoiseError>(held),
                    None => slots is Err && slots->Err_0@ == ErrorView::InvalidSpec(
                        "missing position slots"@,
                    ),
                }
            },
        },
{
    match source {
        PositionSource::Base => Ok(base_slots),
        PositionSource::Node(id) => {
            let handle = resolve_node(graph, id.as_str())?;
            expect_position_slots(position_slots, handle)
        },
    }
}

/// Hands out the next slot.
pub fn allocate_slot(next_slot: &mut u16) -> (slot: BufferSlot)
    requires
        *old(next_slot) < u16::MAX,
    ensures
        slot == BufferSlot(*old(next_slot)),
        *final(next_slot) == *old(next_slot) + 1,
{
    let slot = BufferSlot(*next_slot);
    *next_slot = *next_slot + 1;
    slot
}

/// Hands out one slot per coordinate.
pub fn allocate_position_slots<const N: usize>(next_slot: &mut u16) -> (slots: PositionSlots<N>)
    requires
        *old(next_slot) + N <= u16::MAX,
    ensures
        forall|i: int|
            0 <= i < N ==> #[trigger] slots.coords@[i] == BufferSlot((*old(next_slot) + i) as u16),
        *final(next_slot) == *old(next_slot) + N,
{
    let mut coords = [BufferSlot(0); N];
    let mut i: usize = 0;
    while i < N
        invariant
            i <= N,
            *old(next_slot) + N <= u16::MAX,
            *next_slot == *old(next_slot) + i,
            forall|j: int|
                0 <= j < i ==> #[trigger] coords@[j] == BufferSlot((*old(next_slot) + j) as u16),
        decreases N - i,
    {
        coords[i] = allocate_slot(next_slot);
        i += 1;
    }
    PositionSlots { coords }
}

/// The slots of grid positions in the plane.
pub fn base_position_slots_2() -> (slots: PositionSlots<2>)
    ensures
        slots.coords@ == seq![BufferSlot(SLOT_BASE_X), BufferSlot(SLOT_BASE_Y)],
{
    let slots = PositionSlots { coords: [BufferSlot(SLOT_BASE_X), BufferSlot(SLOT_BASE_Y)] };
    assert(slots.coords@ =~= seq![BufferSlot(SLOT_BASE_X), BufferSlot(SLOT_BASE_Y)]);
    slots
}

/// The slots of grid positions in space.
pub fn base_position_slots_3() -> (slots: PositionSlots<3>)
    ensures
        slots.coords@ == seq![
            BufferSlot(SLOT_BASE_X),
            BufferSlot(SLOT_BASE_Y),
            BufferSlot(SLOT_BASE_Z),
        ],
{
    let slots = PositionSlots {
        coords: [BufferSlot(SLOT_BASE_X), BufferSlot(SLOT_BASE_Y), BufferSlot(SLOT_BASE_Z)],
    };
    assert(slots.coords@ =~= seq![
        BufferSlot(SLOT_BASE_X),
        BufferSlot(SLOT_BASE_Y),
        BufferSlot(SLOT_BASE_Z),
    ]);
    slots
}

/// A buffer of numbers, as long as the batch asks for.
pub open spec fn f32_buffer(slot: BufferSlot) -> BufferSpec {
    BufferSpec { slot, element_kind: ElementKind::F32, layout: BufferLayout::Dynamic }
}

/// A buffer of words, as long as the batch asks for.
pub open spec fn u32_buffer(slot: BufferSlot) -> BufferSpec {
    BufferSpec { slot, element_kind: ElementKind::U32, layout: BufferLayout::Dynamic }
}

pub fn dynamic_f32_buffer(slot: BufferSlot) -> (buffer: BufferSpec)
    ensures
        buffer == f32_buffer(slot),
{
    BufferSpec { slot, element_kind: ElementKind::F32, layout: BufferLayout::Dynamic }
}

pub(crate) proof fn lemma_place_in_range(nodes: Seq<NodeView>, id: Seq<char>)
    requires
        has_node(nodes, id),
        nodes.len() <= usize::MAX,
    ensures
        0 <= place_of(nodes, id) < nodes.len(),
        place_of(nodes, id) as usize == place_of(nodes, id),
{
    let p = place_of(nodes, id);
    assert(0 <= p < nodes.len() && nodes[p].id() == id);
}

} // verus!

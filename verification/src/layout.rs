//! What a plan is made of: the slots that it gives to nodes, and the kernels
//! that run on them.

use vstd::prelude::*;

use crate::combine::arity_refusal;
use crate::error::ErrorView;
use crate::graph::{dependency_lists, f32_buffer, handle_of, u32_buffer};
use crate::kernel_payload::{PayloadView, kernel_with};
use crate::model::{BufferAccess, BufferBinding, BufferSlot, BufferSpec, DispatchHint, FastNoiseKernel, FastNoisePlannerMeta, GraphDimension, KernelView, NodeView, OutputKind, PlanView, SLOT_BASE_X, SLOT_BASE_Y, SLOT_BASE_Z, SLOT_DYNAMIC_START, SLOT_QUERY_F32, SLOT_QUERY_META, SLOT_QUERY_OFFSETS, SourceView, kind_of};
use crate::order::{NodeHandle, is_acyclic, is_schedule, lists_each_once};
use crate::state::StateView;

verus! {

/// How many slots an output takes.
pub open spec fn output_width(kind: OutputKind) -> nat {
    match kind {
        OutputKind::Position(dimension) => dimension.coordinates(),
        OutputKind::Scalar(_) => 1,
    }
}

/// How many slots outputs take together.
pub open spec fn total_width(outputs: Seq<OutputKind>) -> nat
    decreases outputs.len(),
{
    if outputs.len() == 0 {
        0
    } else {
        total_width(outputs.drop_last()) + output_width(outputs.last())
    }
}

/// What nodes produce in a graph of dimension `dimension`.
pub open spec fn outputs_of(nodes: Seq<NodeView>, dimension: GraphDimension) -> Seq<OutputKind> {
    nodes.map_values(|node: NodeView| node.output_kind(dimension))
}

/// The slots of grid positions.
pub open spec fn base_slots(dimension: GraphDimension) -> Seq<BufferSlot> {
    match dimension {
        GraphDimension::D2 => seq![BufferSlot(SLOT_BASE_X), BufferSlot(SLOT_BASE_Y)],
        GraphDimension::D3 => seq![
            BufferSlot(SLOT_BASE_X),
            BufferSlot(SLOT_BASE_Y),
            BufferSlot(SLOT_BASE_Z),
        ],
    }
}

/// The buffers that every plan of a dimension has.
pub open spec fn fixed_buffers(dimension: GraphDimension) -> Seq<BufferSpec> {
    let plane = seq![
        u32_buffer(BufferSlot(SLOT_QUERY_META)),
        f32_buffer(BufferSlot(SLOT_QUERY_F32)),
        u32_buffer(BufferSlot(SLOT_QUERY_OFFSETS)),
        f32_buffer(BufferSlot(SLOT_BASE_X)),
        f32_buffer(BufferSlot(SLOT_BASE_Y)),
    ];
    match dimension {
        GraphDimension::D2 => plane,
        GraphDimension::D3 => plane.push(f32_buffer(BufferSlot(SLOT_BASE_Z))),
    }
}

/// The kernel that lays out the grids of the queries.
pub open spec fn init_kernel(dimension: GraphDimension) -> FastNoiseKernel {
    match dimension {
        GraphDimension::D2 => FastNoiseKernel::InitGrid2d,
        GraphDimension::D3 => FastNoiseKernel::InitGrid3d,
    }
}

/// The first kernel of every plan.
pub open spec fn init_kernel_view(dimension: GraphDimension) -> KernelView {
    KernelView {
        kind_id: kind_of(init_kernel(dimension)),
        payload: Seq::empty(),
        bindings: seq![
            BufferBinding { slot: BufferSlot(SLOT_QUERY_META), access: BufferAccess::Read },
            BufferBinding { slot: BufferSlot(SLOT_QUERY_F32), access: BufferAccess::Read },
            BufferBinding { slot: BufferSlot(SLOT_QUERY_OFFSETS), access: BufferAccess::Read },
        ],
        dispatch: DispatchHint::WholeBatch,
    }
}

/// The kernel that runs a node.
pub open spec fn node_kernel(node: NodeView) -> FastNoiseKernel {
    match node {
        NodeView::Warp { dimension: GraphDimension::D2, .. } => FastNoiseKernel::Warp2d,
        NodeView::Warp { dimension: GraphDimension::D3, .. } => FastNoiseKernel::Warp3d,
        NodeView::Sample { dimension: GraphDimension::D2, .. } => FastNoiseKernel::Sample2d,
        NodeView::Sample { dimension: GraphDimension::D3, .. } => FastNoiseKernel::Sample3d,
        NodeView::Combine { .. } => FastNoiseKernel::Combine,
    }
}

/// Nodes, what they produce, and the order in which they run.
pub struct Layout {
    pub nodes: Seq<NodeView>,
    pub outputs: Seq<OutputKind>,
    pub order: Seq<NodeHandle>,
}

impl Layout {
    /// How many slots the first `count` nodes of the order take.
    pub open spec fn slots_before(self, count: int) -> nat
        decreases count,
    {
        if count <= 0 {
            0
        } else {
            self.slots_before(count - 1) + output_width(self.outputs[self.order[count - 1].0 as int])
        }
    }

    /// The slots of a node: they follow those of the nodes that run before it.
    pub open spec fn node_slots(self, handle: NodeHandle) -> Seq<BufferSlot> {
        let first = SLOT_DYNAMIC_START + self.slots_before(self.order.index_of(handle));
        Seq::new(
            output_width(self.outputs[handle.0 as int]),
            |k: int| BufferSlot((first + k) as u16),
        )
    }

    /// The buffers of the first `count` nodes of the order.
    pub open spec fn node_buffers(self, count: int) -> Seq<BufferSpec> {
        Seq::new(
            self.slots_before(count),
            |k: int| f32_buffer(BufferSlot((SLOT_DYNAMIC_START + k) as u16)),
        )
    }

    /// The slots of the positions that a node produces.
    pub open spec fn position_slots(self, handle: NodeHandle, dimension: GraphDimension) -> Result<
        Seq<BufferSlot>,
        ErrorView,
    > {
        if self.outputs[handle.0 as int] == OutputKind::Position(dimension) {
            Ok(self.node_slots(handle))
        } else {
            Err(ErrorView::InvalidSpec("missing position slots"@))
        }
    }

    /// The slot of the field that a node produces.
    pub open spec fn scalar_slot(self, handle: NodeHandle) -> Result<BufferSlot, ErrorView> {
        if self.outputs[handle.0 as int] is Scalar {
            Ok(self.node_slots(handle)[0])
        } else {
            Err(ErrorView::InvalidSpec("missing scalar slot"@))
        }
    }

    /// The slots of positions from `source`.
    pub open spec fn source_slots(self, source: SourceView, dimension: GraphDimension) -> Result<
        Seq<BufferSlot>,
        ErrorView,
    > {
        match source {
            SourceView::Base => Ok(base_slots(dimension)),
            SourceView::Node(id) => match handle_of(self.nodes, id) {
                Err(error) => Err(error),
                Ok(handle) => self.position_slots(handle, dimension),
            },
        }
    }

    /// The slots of the fields with the given names.
    pub open spec fn field_slots(self, ids: Seq<Seq<char>>) -> Result<Seq<BufferSlot>, ErrorView>
        decreases ids.len(),
    {
        if ids.len() == 0 {
            Ok(Seq::empty())
        } else {
            match self.field_slots(ids.drop_last()) {
                Err(error) => Err(error),
                Ok(before) => match handle_of(self.nodes, ids.last()) {
                    Err(error) => Err(error),
                    Ok(handle) => match self.scalar_slot(handle) {
                        Err(error) => Err(error),
                        Ok(slot) => Ok(before.push(slot)),
                    },
                },
            }
        }
    }

    /// What the kernel of a node is told.
    pub open spec fn node_payload(self, handle: NodeHandle) -> Result<PayloadView, ErrorView> {
        match self.nodes[handle.0 as int] {
            NodeView::Warp { dimension, source, noise, .. } => match self.source_slots(
                source,
                dimension,
            ) {
                Err(error) => Err(error),
                Ok(from) => match self.position_slots(handle, dimension) {
                    Err(error) => Err(error),
                    Ok(to) => Ok(PayloadView::Warp { source: from, output: to, noise }),
                },
            },
            NodeView::Sample { dimension, source, noise, .. } => match self.source_slots(
                source,
                dimension,
            ) {
                Err(error) => Err(error),
                Ok(from) => match self.scalar_slot(handle) {
                    Err(error) => Err(error),
                    Ok(to) => Ok(PayloadView::Sample { source: from, output: to, noise }),
                },
            },
            NodeView::Combine { op, inputs, params, .. } => match arity_refusal(
                op,
                inputs.len(),
                params.len(),
            ) {
                Some(error) => Err(error),
                None => match self.field_slots(inputs) {
                    Err(error) => Err(error),
                    Ok(from) => match self.scalar_slot(handle) {
                        Err(error) => Err(error),
                        Ok(to) => Ok(
                            PayloadView::Combine { op, inputs: from, output: to, params },
                        ),
                    },
                },
            },
        }
    }

    /// The kernel of a node.
    pub open spec fn kernel(self, handle: NodeHandle) -> Result<KernelView, ErrorView> {
        match self.node_payload(handle) {
            Err(error) => Err(error),
            Ok(payload) => Ok(kernel_with(node_kernel(self.nodes[handle.0 as int]), payload)),
        }
    }

    /// The first stage and those of the first `count` nodes of the order; what
    /// is wrong with the first node that something is wrong with is reported.
    pub open spec fn stages(self, dimension: GraphDimension, count: int) -> Result<
        Seq<Seq<KernelView>>,
        ErrorView,
    >
        decreases count,
    {
        if count <= 0 {
            Ok(seq![seq![init_kernel_view(dimension)]])
        } else {
            match self.stages(dimension, count - 1) {
                Err(error) => Err(error),
                Ok(before) => match self.kernel(self.order[count - 1]) {
                    Err(error) => Err(error),
                    Ok(kernel) => Ok(before.push(seq![kernel])),
                },
            }
        }
    }

    /// The payload of some kernel is written: that of the first node, at least.
    pub open spec fn writes_payloads(self) -> bool {
        self.order.len() > 0 && self.kernel(self.order[0]) is Ok
    }

    /// The plan that yields the field of `target`.
    pub open spec fn plan(self, dimension: GraphDimension, target: NodeHandle) -> Result<
        PlanView,
        ErrorView,
    > {
        match self.stages(dimension, self.order.len() as int) {
            Err(error) => Err(error),
            Ok(stages) => match self.scalar_slot(target) {
                Err(error) => Err(error),
                Ok(final_slot) => Ok(
                    PlanView {
                        buffers: fixed_buffers(dimension) + self.node_buffers(
                            self.order.len() as int,
                        ),
                        stages,
                        static_buffers: Seq::empty(),
                        planner_meta: FastNoisePlannerMeta { dimension, final_slot },
                    },
                ),
            },
        }
    }
}

/// The schedule of a graph that has one.
pub open spec fn schedule_of(deps: Seq<Seq<NodeHandle>>) -> Seq<NodeHandle> {
    choose|order: Seq<NodeHandle>| is_schedule(deps, order)
}

/// The refusal of a graph with a cycle.
pub open spec fn cycle_found() -> ErrorView {
    ErrorView::InvalidSpec("cycle detected in fastnoise graph"@)
}

/// The layout of a graph that has a schedule.
pub open spec fn layout_of(state: StateView) -> Layout {
    Layout {
        nodes: state.nodes,
        outputs: outputs_of(state.nodes, state.dimension),
        order: schedule_of(dependency_lists(state.nodes, state.nodes.len())->Ok_0),
    }
}

/// Why a graph cannot be laid out, if it cannot: a node reads a name that no node
/// has, no node has the name that is asked for, or there is a cycle.
pub open spec fn graph_refusal(state: StateView) -> Option<ErrorView> {
    match dependency_lists(state.nodes, state.nodes.len()) {
        Err(error) => Some(error),
        Ok(deps) => match handle_of(state.nodes, state.final_field) {
            Err(error) => Some(error),
            Ok(_) => if is_acyclic(deps) {
                None
            } else {
                Some(cycle_found())
            },
        },
    }
}

/// What a graph compiles to.
pub open spec fn compiled(state: StateView) -> Result<PlanView, ErrorView> {
    match graph_refusal(state) {
        Some(error) => Err(error),
        None => layout_of(state).plan(
            state.dimension,
            handle_of(state.nodes, state.final_field)->Ok_0,
        ),
    }
}

/// Compiling a graph comes as far as writing the payload of a kernel.
pub open spec fn writes_payloads(state: StateView) -> bool {
    graph_refusal(state) is None && layout_of(state).writes_payloads()
}

/// The slots that a graph needs can be numbered.
pub open spec fn slots_fit(state: StateView) -> bool {
    SLOT_DYNAMIC_START + total_width(outputs_of(state.nodes, state.dimension)) <= u16::MAX
}

/// More outputs take no fewer slots.
pub(crate) proof fn lemma_total_width_grows(outputs: Seq<OutputKind>, k: int)
    requires
        0 <= k <= outputs.len(),
    ensures
        total_width(outputs.take(k)) <= total_width(outputs),
    decreases outputs.len(),
{
    if k == outputs.len() {
        assert(outputs.take(k) =~= outputs);
    } else {
        assert(outputs.drop_last().take(k) =~= outputs.take(k));
        lemma_total_width_grows(outputs.drop_last(), k);
    }
}

proof fn lemma_total_width_remove(outputs: Seq<OutputKind>, k: int)
    requires
        0 <= k < outputs.len(),
    ensures
        total_width(outputs) == total_width(outputs.remove(k)) + output_width(outputs[k]),
    decreases outputs.len(),
{
    if k == outputs.len() - 1 {
        assert(outputs.remove(k) =~= outputs.drop_last());
    } else {
        lemma_total_width_remove(outputs.drop_last(), k);
        assert(outputs.remove(k).drop_last() =~= outputs.drop_last().remove(k));
        assert(outputs.remove(k).last() == outputs.last());
    }
}

/// What nodes produce, in the order in which they run.
spec fn outputs_in_order(outputs: Seq<OutputKind>, order: Seq<NodeHandle>) -> Seq<OutputKind> {
    order.map_values(|handle: NodeHandle| outputs[handle.0 as int])
}

/// The order in which nodes run does not change how many slots they take.
proof fn lemma_width_in_order(outputs: Seq<OutputKind>, order: Seq<NodeHandle>)
    requires
        lists_each_once(outputs.len(), order),
        outputs.len() <= usize::MAX,
    ensures
        total_width(outputs_in_order(outputs, order)) == total_width(outputs),
    decreases outputs.len(),
{
    if outputs.len() > 0 {
        let last = NodeHandle((outputs.len() - 1) as usize);
        assert(order.contains(last));
        let k = choose|k: int| 0 <= k < order.len() && order[k] == last;
        let rest = order.remove(k);
        let fewer = outputs.drop_last();
        assert forall|i: int| 0 <= i < rest.len() implies (#[trigger] rest[i]).0 < fewer.len() by {
            let o = if i < k {
                i
            } else {
                i + 1
            };
            assert(rest[i] == order[o]);
            assert(order[o] != order[k]);
        }
        assert(rest.no_duplicates());
        assert forall|h: NodeHandle| h.0 < fewer.len() implies #[trigger] rest.contains(h) by {
            assert(order.contains(h));
            let o = choose|o: int| 0 <= o < order.len() && order[o] == h;
            if o < k {
                assert(rest[o] == h);
            } else {
                assert(rest[o - 1] == h);
            }
        }
        lemma_width_in_order(fewer, rest);
        let listed = outputs_in_order(outputs, order);
        lemma_total_width_remove(listed, k);
        assert(listed.remove(k) =~= outputs_in_order(fewer, rest));
    } else {
        assert(outputs_in_order(outputs, order).len() == 0);
    }
}

impl Layout {
    /// The order lists every node once.
    pub open spec fn wf(self) -> bool {
        &&& self.outputs.len() == self.nodes.len()
        &&& lists_each_once(self.nodes.len(), self.order)
        &&& self.nodes.len() <= usize::MAX
    }

    proof fn lemma_slots_before(self, count: int)
        requires
            0 <= count <= self.order.len(),
        ensures
            self.slots_before(count) == total_width(
                outputs_in_order(self.outputs, self.order).take(count),
            ),
        decreases count,
    {
        let listed = outputs_in_order(self.outputs, self.order);
        if count > 0 {
            self.lemma_slots_before(count - 1);
            assert(listed.take(count).drop_last() =~= listed.take(count - 1));
        }
    }

    /// All nodes together take what their outputs take.
    pub(crate) proof fn lemma_slots_in_all(self)
        requires
            self.wf(),
        ensures
            self.slots_before(self.order.len() as int) == total_width(self.outputs),
    {
        let listed = outputs_in_order(self.outputs, self.order);
        self.lemma_slots_before(self.order.len() as int);
        assert(listed.take(self.order.len() as int) =~= listed);
        lemma_width_in_order(self.outputs, self.order);
    }

    /// More nodes take more slots.
    pub(crate) proof fn lemma_slots_grow(self, fewer: int, more: int)
        requires
            0 <= fewer < more <= self.order.len(),
        ensures
            self.slots_before(fewer) + output_width(self.outputs[self.order[fewer].0 as int])
                <= self.slots_before(more),
            self.slots_before(fewer) < self.slots_before(more),
        decreases more,
    {
        if fewer < more - 1 {
            self.lemma_slots_grow(fewer, more - 1);
        }
    }
}

/// Positions on the grid stand in the slots of the grid, one for each coordinate.
pub proof fn law_grid_positions_have_their_slots(dimension: GraphDimension)
    ensures
        base_slots(dimension).len() == if dimension == GraphDimension::D2 {
            2nat
        } else {
            3nat
        },
        forall|k: int|
            0 <= k < base_slots(dimension).len() ==> (#[trigger] base_slots(dimension)[k]).0 == 3
                + k,
{
}

/// A graph needs six slots, one more for each field and, for each warp, as many
/// more as its positions have coordinates. They can be numbered if they are no
/// more than the largest number of sixteen bits.
pub proof fn law_slots_are_counted(state: StateView, node: NodeView)
    ensures
        slots_fit(state) <==> 6 + total_width(outputs_of(state.nodes, state.dimension)) <= 65535,
        state.nodes.len() == 0 ==> total_width(outputs_of(state.nodes, state.dimension)) == 0,
        total_width(outputs_of(state.nodes.push(node), state.dimension)) == total_width(
            outputs_of(state.nodes, state.dimension),
        ) + match node {
            NodeView::Warp { dimension: GraphDimension::D2, .. } => 2nat,
            NodeView::Warp { dimension: GraphDimension::D3, .. } => 3nat,
            _ => 1nat,
        },
{
    let more = outputs_of(state.nodes.push(node), state.dimension);
    assert(more.drop_last() =~= outputs_of(state.nodes, state.dimension));
}

} // verus!

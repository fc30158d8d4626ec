//! What holds of every plan that a graph compiles to.

use vstd::prelude::*;

use crate::combine::arity_refusal;
use crate::error::ErrorView;
use crate::graph::{dependency_lists, f32_buffer, handle_of, handles_of, lemma_place_in_range};
use crate::kernel::{PreparedView, combine_run, law_valid_combination_runs, payload_reads, payload_writes, prepared};
use crate::kernel_payload::{PayloadView, law_payload_round_trip, payload_bytes, takes};
use crate::layout::{Layout, base_slots, compiled, cycle_found, fixed_buffers, graph_refusal, init_kernel_view, layout_of, node_kernel, output_width, schedule_of, slots_fit, writes_payloads};
use crate::model::{BufferAccess, BufferLayout, BufferSlot, DispatchHint, ElementKind, FastNoiseKernel, GraphDimension, KernelView, NodeView, PlanView, SLOT_BASE_X, SLOT_BASE_Y, SLOT_BASE_Z, SLOT_DYNAMIC_START, SLOT_QUERY_F32, SLOT_QUERY_META, SLOT_QUERY_OFFSETS, SourceView};
use crate::order::{NodeHandle, all_in, is_cycle, is_schedule, is_topological, law_acyclic_has_schedule, law_acyclic_means_no_cycle, lemma_index};
use crate::noise::CombineOp;
use crate::state::{StateView, distinct_ids, lemma_place, place_of};

verus! {

proof fn lemma_handles_len(nodes: Seq<NodeView>, ids: Seq<Seq<char>>)
    requires
        handles_of(nodes, ids) is Ok,
    ensures
        handles_of(nodes, ids)->Ok_0.len() == ids.len(),
    decreases ids.len(),
{
    if ids.len() > 0 {
        lemma_handles_len(nodes, ids.drop_last());
    }
}

proof fn lemma_handles(nodes: Seq<NodeView>, ids: Seq<Seq<char>>, k: int)
    requires
        handles_of(nodes, ids) is Ok,
        0 <= k < ids.len(),
    ensures
        handle_of(nodes, ids[k]) == Ok::<NodeHandle, ErrorView>(handles_of(nodes, ids)->Ok_0[k]),
    decreases ids.len(),
{
    lemma_handles_len(nodes, ids.drop_last());
    if k < ids.len() - 1 {
        lemma_handles(nodes, ids.drop_last(), k);
    }
}

proof fn lemma_dependency_lists_len(nodes: Seq<NodeView>, count: nat)
    requires
        dependency_lists(nodes, count) is Ok,
    ensures
        dependency_lists(nodes, count)->Ok_0.len() == count,
    decreases count,
{
    if count > 0 {
        lemma_dependency_lists_len(nodes, (count - 1) as nat);
    }
}

proof fn lemma_dependency_list(nodes: Seq<NodeView>, count: nat, x: int)
    requires
        dependency_lists(nodes, count) is Ok,
        0 <= x < count,
    ensures
        handles_of(nodes, nodes[x].reads()) == Ok::<Seq<NodeHandle>, ErrorView>(
            dependency_lists(nodes, count)->Ok_0[x],
        ),
    decreases count,
{
    lemma_dependency_lists_len(nodes, (count - 1) as nat);
    if x < count - 1 {
        lemma_dependency_list(nodes, (count - 1) as nat, x);
    }
}

/// The nodes of a graph that can be laid out run by its schedule.
pub(crate) proof fn lemma_layout(state: StateView)
    requires
        graph_refusal(state) is None,
        state.nodes.len() <= usize::MAX,
    ensures
        layout_of(state).wf(),
        is_topological(
            dependency_lists(state.nodes, state.nodes.len())->Ok_0,
            layout_of(state).order,
        ),
{
    let deps = dependency_lists(state.nodes, state.nodes.len())->Ok_0;
    lemma_dependency_lists_len(state.nodes, state.nodes.len());
    law_acyclic_has_schedule(deps);
    assert(is_schedule(deps, schedule_of(deps)));
}

proof fn lemma_first_stage(layout: Layout, dimension: GraphDimension, count: int)
    requires
        layout.stages(dimension, count) is Ok,
        0 <= count,
    ensures
        layout.stages(dimension, count)->Ok_0.len() == count + 1,
        layout.stages(dimension, count)->Ok_0[0] == seq![init_kernel_view(dimension)],
    decreases count,
{
    if count > 0 {
        lemma_first_stage(layout, dimension, count - 1);
    }
}

proof fn lemma_stage_at(layout: Layout, dimension: GraphDimension, count: int, i: int)
    requires
        layout.stages(dimension, count) is Ok,
        0 <= i < count,
    ensures
        layout.kernel(layout.order[i]) is Ok,
        layout.stages(dimension, count)->Ok_0[i + 1] == seq![layout.kernel(layout.order[i])->Ok_0],
    decreases count,
{
    lemma_first_stage(layout, dimension, count - 1);
    if i < count - 1 {
        lemma_stage_at(layout, dimension, count - 1, i);
    }
}

proof fn lemma_field_slots(layout: Layout, ids: Seq<Seq<char>>, k: int)
    requires
        layout.field_slots(ids) is Ok,
        0 <= k < ids.len(),
    ensures
        layout.field_slots(ids)->Ok_0.len() == ids.len(),
        handle_of(layout.nodes, ids[k]) is Ok,
        layout.outputs[(handle_of(layout.nodes, ids[k])->Ok_0).0 as int] is Scalar,
        layout.field_slots(ids)->Ok_0[k] == layout.node_slots(
            handle_of(layout.nodes, ids[k])->Ok_0,
        )[0],
    decreases ids.len(),
{
    if k < ids.len() - 1 {
        lemma_field_slots(layout, ids.drop_last(), k);
    } else if ids.len() > 1 {
        lemma_field_slots(layout, ids.drop_last(), 0);
    } else {
        assert(layout.field_slots(ids.drop_last())->Ok_0.len() == 0);
    }
}

proof fn lemma_field_slots_len(layout: Layout, ids: Seq<Seq<char>>)
    requires
        layout.field_slots(ids) is Ok,
    ensures
        layout.field_slots(ids)->Ok_0.len() == ids.len(),
{
    if ids.len() > 0 {
        lemma_field_slots(layout, ids, 0);
    }
}

proof fn lemma_payload_is_taken(layout: Layout, handle: NodeHandle)
    requires
        layout.node_payload(handle) is Ok,
    ensures
        takes(node_kernel(layout.nodes[handle.0 as int]), layout.node_payload(handle)->Ok_0),
{
    match layout.nodes[handle.0 as int] {
        NodeView::Combine { inputs, .. } => {
            lemma_field_slots_len(layout, inputs);
        },
        _ => {},
    }
}

/// A backend accepts every kernel of a plan: the first one lays out the grids of
/// the queries, and each of the others is told what the node that it runs needs.
pub proof fn law_every_kernel_is_accepted(state: StateView, stage: int)
    requires
        compiled(state) is Ok,
        0 <= stage < compiled(state)->Ok_0.stages.len(),
    ensures
        compiled(state)->Ok_0.stages.len() == layout_of(state).order.len() + 1,
        compiled(state)->Ok_0.stages[stage].len() == 1,
        stage == 0 ==> prepared(compiled(state)->Ok_0.stages[stage][0]) == Ok::<
            PreparedView,
            ErrorView,
        >(PreparedView::GridInit(state.dimension)),
        stage > 0 ==> {
            let handle = layout_of(state).order[stage - 1];
            &&& layout_of(state).node_payload(handle) is Ok
            &&& prepared(compiled(state)->Ok_0.stages[stage][0]) == Ok::<PreparedView, ErrorView>(
                PreparedView::Told(
                    node_kernel(state.nodes[handle.0 as int]),
                    layout_of(state).node_payload(handle)->Ok_0,
                ),
            )
        },
{
    let layout = layout_of(state);
    let count = layout.order.len() as int;
    lemma_first_stage(layout, state.dimension, count);
    if stage > 0 {
        lemma_stage_at(layout, state.dimension, count, stage - 1);
        let handle = layout.order[stage - 1];
        let payload = layout.node_payload(handle)->Ok_0;
        let known = node_kernel(layout.nodes[handle.0 as int]);
        lemma_payload_is_taken(layout, handle);
        law_payload_round_trip(known, payload, Seq::empty());
        assert(payload_bytes(payload) + Seq::<u8>::empty() =~= payload_bytes(payload));
    }
}

/// The slots of a node, as numbers.
proof fn lemma_slot_range(state: StateView, handle: NodeHandle)
    requires
        graph_refusal(state) is None,
        slots_fit(state),
        state.nodes.len() <= usize::MAX,
        handle.0 < state.nodes.len(),
    ensures
        0 <= layout_of(state).order.index_of(handle) < layout_of(state).order.len(),
        layout_of(state).order[layout_of(state).order.index_of(handle)] == handle,
        ({
            let layout = layout_of(state);
            let turn = layout.order.index_of(handle);
            &&& SLOT_DYNAMIC_START + layout.slots_before(turn + 1) <= u16::MAX
            &&& layout.node_slots(handle).len() == output_width(layout.outputs[handle.0 as int])
            &&& layout.slots_before(turn + 1) == layout.slots_before(turn) + layout.node_slots(
                handle,
            ).len()
            &&& forall|k: int|
                0 <= k < layout.node_slots(handle).len() ==> (#[trigger] layout.node_slots(
                    handle,
                )[k]).0 == SLOT_DYNAMIC_START + layout.slots_before(turn) + k
        }),
{
    let layout = layout_of(state);
    lemma_layout(state);
    assert(layout.order.contains(handle));
    let turn = layout.order.index_of(handle);
    layout.lemma_slots_in_all();
    if turn + 1 < layout.order.len() {
        layout.lemma_slots_grow(turn + 1, layout.order.len() as int);
    }
    assert forall|k: int| 0 <= k < layout.node_slots(handle).len() implies (
    #[trigger] layout.node_slots(handle)[k]).0 == SLOT_DYNAMIC_START + layout.slots_before(turn)
        + k by {
        assert(0 <= SLOT_DYNAMIC_START + layout.slots_before(turn) + k <= u16::MAX);
    }
}

/// The slots of a node are none of those that every plan has, and no two of them
/// are the same.
pub proof fn law_slots_are_own(state: StateView, handle: NodeHandle)
    requires
        graph_refusal(state) is None,
        slots_fit(state),
        state.nodes.len() <= usize::MAX,
        handle.0 < state.nodes.len(),
    ensures
        forall|i: int|
            0 <= i < layout_of(state).node_slots(handle).len() ==> (#[trigger] layout_of(
                state,
            ).node_slots(handle)[i]).0 >= SLOT_DYNAMIC_START,
        layout_of(state).node_slots(handle).no_duplicates(),
{
    lemma_slot_range(state, handle);
}

/// No slot belongs to two nodes.
pub proof fn law_slots_are_apart(state: StateView, a: NodeHandle, b: NodeHandle)
    requires
        graph_refusal(state) is None,
        slots_fit(state),
        state.nodes.len() <= usize::MAX,
        a.0 < state.nodes.len(),
        b.0 < state.nodes.len(),
        a != b,
    ensures
        forall|i: int, j: int|
            0 <= i < layout_of(state).node_slots(a).len() && 0 <= j < layout_of(state).node_slots(
                b,
            ).len() ==> #[trigger] layout_of(state).node_slots(a)[i]
                != #[trigger] layout_of(state).node_slots(b)[j],
{
    let layout = layout_of(state);
    lemma_slot_range(state, a);
    lemma_slot_range(state, b);
    let turn_a = layout.order.index_of(a);
    let turn_b = layout.order.index_of(b);
    assert(turn_a != turn_b);
    if turn_a < turn_b {
        layout.lemma_slots_grow(turn_a, turn_b);
    } else {
        layout.lemma_slots_grow(turn_b, turn_a);
    }
}

/// A plan has a buffer of numbers for every slot of a node.
pub proof fn law_slots_have_buffers(state: StateView, handle: NodeHandle, k: int)
    requires
        compiled(state) is Ok,
        slots_fit(state),
        state.nodes.len() <= usize::MAX,
        handle.0 < state.nodes.len(),
        0 <= k < layout_of(state).node_slots(handle).len(),
    ensures
        compiled(state)->Ok_0.buffers.contains(f32_buffer(layout_of(state).node_slots(handle)[k])),
{
    let layout = layout_of(state);
    let count = layout.order.len() as int;
    let turn = layout.order.index_of(handle);
    lemma_slot_range(state, handle);
    layout.lemma_slots_grow(turn, count);
    let slot = layout.node_slots(handle)[k];
    let at = layout.slots_before(turn) + k;
    assert(layout.node_buffers(count)[at] == f32_buffer(slot));
    let buffers = compiled(state)->Ok_0.buffers;
    assert(buffers[fixed_buffers(state.dimension).len() + at] == f32_buffer(slot));
}

/// `slot` is one of those of a node that runs before step `turn`.
pub open spec fn written_before(layout: Layout, turn: int, slot: BufferSlot) -> bool {
    exists|j: int| 0 <= j < turn && (#[trigger] layout.node_slots(layout.order[j])).contains(slot)
}

/// What a node reads has run before it.
proof fn lemma_read_has_run(state: StateView, turn: int, id: Seq<char>) -> (j: int)
    requires
        graph_refusal(state) is None,
        state.nodes.len() <= usize::MAX,
        0 <= turn < layout_of(state).order.len(),
        state.nodes[layout_of(state).order[turn].0 as int].reads().contains(id),
    ensures
        0 <= j < turn,
        handle_of(state.nodes, id) == Ok::<NodeHandle, ErrorView>(layout_of(state).order[j]),
{
    let layout = layout_of(state);
    let x = layout.order[turn].0 as int;
    let deps = dependency_lists(state.nodes, state.nodes.len())->Ok_0;
    let ids = state.nodes[x].reads();
    lemma_layout(state);
    lemma_dependency_list(state.nodes, state.nodes.len(), x);
    let k = choose|k: int| 0 <= k < ids.len() && ids[k] == id;
    lemma_handles_len(state.nodes, ids);
    lemma_handles(state.nodes, ids, k);
    let handle = deps[x][k];
    assert(all_in(deps[x], layout.order.take(turn)));
    assert(layout.order.take(turn).contains(handle));
    let j = choose|j: int| 0 <= j < turn && layout.order.take(turn)[j] == handle;
    assert(layout.order[j] == handle);
    j
}

/// Every slot that a node reads was written before: by the kernel that lays out
/// the grids, or by a node that runs earlier. In a graph in the plane, nodes in
/// space may in addition read the third coordinate of the grid, which nothing
/// writes there.
pub proof fn law_reads_come_after_writes(state: StateView, turn: int, k: int)
    requires
        compiled(state) is Ok,
        state.nodes.len() <= usize::MAX,
        0 <= turn < layout_of(state).order.len(),
        0 <= k < payload_reads(
            layout_of(state).node_payload(layout_of(state).order[turn])->Ok_0,
        ).len(),
    ensures
        ({
            let slot = payload_reads(
                layout_of(state).node_payload(layout_of(state).order[turn])->Ok_0,
            )[k];
            ||| base_slots(state.dimension).contains(slot)
            ||| state.dimension == GraphDimension::D2 && slot == BufferSlot(SLOT_BASE_Z)
            ||| written_before(layout_of(state), turn, slot)
        }),
{
    let layout = layout_of(state);
    let handle = layout.order[turn];
    lemma_stage_at(layout, state.dimension, layout.order.len() as int, turn);
    let payload = layout.node_payload(handle)->Ok_0;
    let slot = payload_reads(payload)[k];
    match layout.nodes[handle.0 as int] {
        NodeView::Combine { op, inputs, .. } => {
            lemma_field_slots_len(layout, inputs);
            if k < inputs.len() {
                lemma_field_slots(layout, inputs, k);
                assert(inputs.contains(inputs[k]));
                let j = lemma_read_has_run(state, turn, inputs[k]);
                let slots = layout.node_slots(layout.order[j]);
                assert(slots[0] == slot);
                assert(slots.contains(slot));
            } else {
                assert(slot == BufferSlot(SLOT_BASE_Y));
                assert(base_slots(state.dimension)[1] == slot);
            }
        },
        NodeView::Warp { dimension, source, .. } | NodeView::Sample { dimension, source, .. } => {
            match source {
                SourceView::Base => {
                    if k < state.dimension.coordinates() {
                        assert(base_slots(state.dimension)[k] == slot);
                    }
                },
                SourceView::Node(id) => {
                    let reads = layout.nodes[handle.0 as int].reads();
                    assert(reads[0] == id);
                    assert(reads.contains(id));
                    let j = lemma_read_has_run(state, turn, id);
                    assert(layout.node_slots(layout.order[j])[k] == slot);
                },
            }
        },
    }
}

/// The slots that a node writes are its own, and the field that is asked for is
/// what the node with its name writes.
pub proof fn law_writes_are_own_slots(state: StateView, turn: int)
    requires
        compiled(state) is Ok,
        state.nodes.len() <= usize::MAX,
        0 <= turn < layout_of(state).order.len(),
    ensures
        payload_writes(layout_of(state).node_payload(layout_of(state).order[turn])->Ok_0)
            == layout_of(state).node_slots(layout_of(state).order[turn]),
        ({
            let target = handle_of(state.nodes, state.final_field)->Ok_0;
            layout_of(state).node_slots(target) == seq![
                compiled(state)->Ok_0.planner_meta.final_slot,
            ]
        }),
{
    let layout = layout_of(state);
    let handle = layout.order[turn];
    lemma_stage_at(layout, state.dimension, layout.order.len() as int, turn);
    let payload = layout.node_payload(handle)->Ok_0;
    assert(payload_writes(payload) =~= layout.node_slots(handle));
    let target = handle_of(state.nodes, state.final_field)->Ok_0;
    assert(layout.node_slots(target) =~= seq![compiled(state)->Ok_0.planner_meta.final_slot]);
}

/// A combination in a plan runs, whatever the batch.
pub proof fn law_planned_combinations_run(state: StateView, turn: int, offsets: Seq<u32>)
    requires
        compiled(state) is Ok,
        0 <= turn < layout_of(state).order.len(),
        layout_of(state).node_payload(layout_of(state).order[turn])->Ok_0 is Combine,
    ensures
        layout_of(state).node_payload(
            layout_of(state).order[turn],
        )->Ok_0 matches PayloadView::Combine { op, inputs, output, params } && combine_run(
            op,
            inputs,
            output,
            params,
            offsets,
        ) is Ok,
{
    let layout = layout_of(state);
    let handle = layout.order[turn];
    lemma_stage_at(layout, state.dimension, layout.order.len() as int, turn);
    if let NodeView::Combine { op, inputs, params, .. } = layout.nodes[handle.0 as int] {
        lemma_field_slots_len(layout, inputs);
        law_valid_combination_runs(
            op,
            layout.field_slots(inputs)->Ok_0,
            layout.scalar_slot(handle)->Ok_0,
            params,
            offsets,
        );
    }
}

/// A graph whose names are all known is refused before it is laid out if and
/// only if some node depends on itself.
pub proof fn law_cycles_are_refused(state: StateView)
    requires
        dependency_lists(state.nodes, state.nodes.len()) is Ok,
        handle_of(state.nodes, state.final_field) is Ok,
        state.nodes.len() <= usize::MAX,
    ensures
        (graph_refusal(state) == Some(cycle_found())) <==> (exists|cycle: Seq<NodeHandle>|
            is_cycle(dependency_lists(state.nodes, state.nodes.len())->Ok_0, cycle)),
        (graph_refusal(state) is None) <==> !(exists|cycle: Seq<NodeHandle>|
            is_cycle(dependency_lists(state.nodes, state.nodes.len())->Ok_0, cycle)),
{
    let deps = dependency_lists(state.nodes, state.nodes.len())->Ok_0;
    lemma_dependency_lists_len(state.nodes, state.nodes.len());
    assert forall|x: int, j: int| 0 <= x < deps.len() && 0 <= j < deps[x].len() implies (
    #[trigger] deps[x][j]).0 < deps.len() by {
        lemma_dependency_list(state.nodes, state.nodes.len(), x);
        let ids = state.nodes[x].reads();
        lemma_handles_len(state.nodes, ids);
        lemma_handles(state.nodes, ids, j);
        lemma_place_in_range(state.nodes, ids[j]);
    }
    law_acyclic_means_no_cycle(deps);
}

/// What the kernel of the plan that runs at step `turn`, behind the one that lays
/// out the grids, is told, as a backend reads it.
pub open spec fn told(plan: PlanView, turn: int) -> PayloadView {
    prepared(plan.stages[turn + 1][0])->Ok_0->Told_1
}

/// The kernel that runs at step `turn`.
pub open spec fn runs(plan: PlanView, turn: int) -> FastNoiseKernel {
    prepared(plan.stages[turn + 1][0])->Ok_0->Told_0
}

/// The node that runs at step `turn` of the plan of a graph.
pub open spec fn node_at_turn(state: StateView, turn: int) -> NodeView {
    state.nodes[layout_of(state).order[turn].0 as int]
}

/// The node that runs at step `turn` has the name `id` and leaves positions in
/// `slots`.
pub open spec fn leaves_positions(
    state: StateView,
    turn: int,
    id: Seq<char>,
    slots: Seq<BufferSlot>,
) -> bool {
    &&& 0 <= turn < state.nodes.len()
    &&& (node_at_turn(state, turn) matches NodeView::Warp { id: name, .. } && name == id)
    &&& (told(compiled(state)->Ok_0, turn) matches PayloadView::Warp { output, .. } && output
        == slots)
}

/// The node that runs at step `turn` has the name `id` and leaves a field in
/// `slot`.
pub open spec fn leaves_field(
    state: StateView,
    turn: int,
    id: Seq<char>,
    slot: BufferSlot,
) -> bool {
    &&& 0 <= turn < state.nodes.len()
    &&& match node_at_turn(state, turn) {
        NodeView::Warp { .. } => false,
        NodeView::Sample { id: name, .. } => name == id && (told(
            compiled(state)->Ok_0,
            turn,
        ) matches PayloadView::Sample { output, .. } && output == slot),
        NodeView::Combine { id: name, .. } => name == id && (told(
            compiled(state)->Ok_0,
            turn,
        ) matches PayloadView::Combine { output, .. } && output == slot),
    }
}

/// Positions from `source` are in `slots` when step `turn` runs: those of the grid,
/// coordinate by coordinate, or those that the node with that name has left at an
/// earlier step.
pub open spec fn positions_are_in(
    state: StateView,
    turn: int,
    dimension: GraphDimension,
    source: SourceView,
    slots: Seq<BufferSlot>,
) -> bool {
    match source {
        SourceView::Base => {
            &&& slots.len() == if dimension == GraphDimension::D2 {
                2nat
            } else {
                3nat
            }
            &&& slots[0] == BufferSlot(SLOT_BASE_X)
            &&& slots[1] == BufferSlot(SLOT_BASE_Y)
            &&& dimension == GraphDimension::D3 ==> slots[2] == BufferSlot(SLOT_BASE_Z)
        },
        SourceView::Node(id) => exists|j: int|
            0 <= j < turn && #[trigger] leaves_positions(state, j, id, slots),
    }
}

/// The field with the name `id` is in `slot` when step `turn` runs: a node of that
/// name has left it there at an earlier step.
pub open spec fn field_is_in(
    state: StateView,
    turn: int,
    id: Seq<char>,
    slot: BufferSlot,
) -> bool {
    exists|j: int| 0 <= j < turn && #[trigger] leaves_field(state, j, id, slot)
}

proof fn lemma_told(state: StateView, turn: int)
    requires
        compiled(state) is Ok,
        state.nodes.len() <= usize::MAX,
        0 <= turn < layout_of(state).order.len(),
    ensures
        layout_of(state).order.len() == state.nodes.len(),
        layout_of(state).order[turn].0 < state.nodes.len(),
        layout_of(state).node_payload(layout_of(state).order[turn]) == Ok::<PayloadView, ErrorView>(
            told(compiled(state)->Ok_0, turn),
        ),
        runs(compiled(state)->Ok_0, turn) == node_kernel(node_at_turn(state, turn)),
        prepared(compiled(state)->Ok_0.stages[turn + 1][0]) is Ok,
        prepared(compiled(state)->Ok_0.stages[turn + 1][0])->Ok_0 is Told,
{
    lemma_layout(state);
    lemma_first_stage(layout_of(state), state.dimension, layout_of(state).order.len() as int);
    law_every_kernel_is_accepted(state, turn + 1);
}

proof fn lemma_place_has_name(nodes: Seq<NodeView>, id: Seq<char>)
    requires
        handle_of(nodes, id) is Ok,
        nodes.len() <= usize::MAX,
    ensures
        (handle_of(nodes, id)->Ok_0).0 < nodes.len(),
        nodes[(handle_of(nodes, id)->Ok_0).0 as int].id() == id,
{
    lemma_place_in_range(nodes, id);
    let p = place_of(nodes, id);
    assert(0 <= p < nodes.len() && nodes[p].id() == id);
}

/// The positions that the node at step `turn` reads from the node `id` were left
/// at an earlier step.
proof fn lemma_positions_left(
    state: StateView,
    turn: int,
    id: Seq<char>,
    dimension: GraphDimension,
    slots: Seq<BufferSlot>,
)
    requires
        compiled(state) is Ok,
        state.nodes.len() <= usize::MAX,
        0 <= turn < layout_of(state).order.len(),
        node_at_turn(state, turn).reads().contains(id),
        layout_of(state).source_slots(SourceView::Node(id), dimension) == Ok::<
            Seq<BufferSlot>,
            ErrorView,
        >(slots),
    ensures
        exists|j: int| 0 <= j < turn && #[trigger] leaves_positions(state, j, id, slots),
{
    let layout = layout_of(state);
    let j = lemma_read_has_run(state, turn, id);
    lemma_place_has_name(state.nodes, id);
    lemma_told(state, j);
    lemma_told(state, turn);
    law_writes_are_own_slots(state, j);
    assert(leaves_positions(state, j, id, slots));
}

proof fn lemma_field_left(state: StateView, turn: int, ids: Seq<Seq<char>>, k: int)
    requires
        compiled(state) is Ok,
        state.nodes.len() <= usize::MAX,
        0 <= turn < layout_of(state).order.len(),
        node_at_turn(state, turn).reads() == ids,
        layout_of(state).field_slots(ids) is Ok,
        0 <= k < ids.len(),
    ensures
        field_is_in(state, turn, ids[k], layout_of(state).field_slots(ids)->Ok_0[k]),
{
    let layout = layout_of(state);
    assert(ids.contains(ids[k]));
    let j = lemma_read_has_run(state, turn, ids[k]);
    lemma_place_has_name(state.nodes, ids[k]);
    lemma_field_slots(layout, ids, k);
    lemma_told(state, j);
    lemma_told(state, turn);
    law_writes_are_own_slots(state, j);
    assert(leaves_field(state, j, ids[k], layout.field_slots(ids)->Ok_0[k]));
}

/// A warp moves, by the settings of its node, the positions that its source names:
/// those of the grid, or just those that the node of that name has left.
pub proof fn law_warps_do_what_nodes_say(state: StateView, turn: int)
    requires
        compiled(state) is Ok,
        state.nodes.len() <= usize::MAX,
        0 <= turn < state.nodes.len(),
        node_at_turn(state, turn) is Warp,
    ensures
        node_at_turn(state, turn) matches NodeView::Warp { dimension, source, noise, .. } && {
            &&& runs(compiled(state)->Ok_0, turn) == if dimension == GraphDimension::D2 {
                FastNoiseKernel::Warp2d
            } else {
                FastNoiseKernel::Warp3d
            }
            &&& told(compiled(state)->Ok_0, turn) matches PayloadView::Warp {
                source: from,
                output: to,
                noise: with,
            }
            &&& with == noise
            &&& to.len() == if dimension == GraphDimension::D2 {
                2nat
            } else {
                3nat
            }
            &&& positions_are_in(state, turn, dimension, source, from)
        },
{
    let layout = layout_of(state);
    lemma_layout(state);
    lemma_told(state, turn);
    if let NodeView::Warp { dimension, source, .. } = node_at_turn(state, turn) {
        if let SourceView::Node(id) = source {
            let reads = node_at_turn(state, turn).reads();
            assert(reads[0] == id);
            assert(reads.contains(id));
            let from = layout.source_slots(source, dimension)->Ok_0;
            lemma_positions_left(state, turn, id, dimension, from);
        }
    }
}

/// A sampling samples, by the settings of its node, at the positions that its
/// source names: those of the grid, or just those that the node of that name has
/// left.
pub proof fn law_samplings_do_what_nodes_say(state: StateView, turn: int)
    requires
        compiled(state) is Ok,
        state.nodes.len() <= usize::MAX,
        0 <= turn < state.nodes.len(),
        node_at_turn(state, turn) is Sample,
    ensures
        node_at_turn(state, turn) matches NodeView::Sample { dimension, source, noise, .. } && {
            &&& runs(compiled(state)->Ok_0, turn) == if dimension == GraphDimension::D2 {
                FastNoiseKernel::Sample2d
            } else {
                FastNoiseKernel::Sample3d
            }
            &&& told(compiled(state)->Ok_0, turn) matches PayloadView::Sample {
                source: from,
                noise: with,
                ..
            }
            &&& with == noise
            &&& positions_are_in(state, turn, dimension, source, from)
        },
{
    let layout = layout_of(state);
    lemma_layout(state);
    lemma_told(state, turn);
    if let NodeView::Sample { dimension, source, .. } = node_at_turn(state, turn) {
        if let SourceView::Node(id) = source {
            let reads = node_at_turn(state, turn).reads();
            assert(reads[0] == id);
            assert(reads.contains(id));
            let from = layout.source_slots(source, dimension)->Ok_0;
            lemma_positions_left(state, turn, id, dimension, from);
        }
    }
}

/// A combination has the operation and the parameters of its node, and reads the
/// fields that the inputs of the node name, in their order.
pub proof fn law_combinations_do_what_nodes_say(state: StateView, turn: int)
    requires
        compiled(state) is Ok,
        state.nodes.len() <= usize::MAX,
        0 <= turn < state.nodes.len(),
        node_at_turn(state, turn) is Combine,
    ensures
        node_at_turn(state, turn) matches NodeView::Combine { op, inputs, params, .. } && {
            &&& runs(compiled(state)->Ok_0, turn) == FastNoiseKernel::Combine
            &&& told(compiled(state)->Ok_0, turn) matches PayloadView::Combine {
                op: with,
                inputs: from,
                params: given,
                ..
            }
            &&& with == op
            &&& given == params
            &&& from.len() == inputs.len()
            &&& forall|k: int|
                0 <= k < inputs.len() ==> field_is_in(state, turn, #[trigger] inputs[k], from[k])
        },
{
    let layout = layout_of(state);
    lemma_layout(state);
    lemma_told(state, turn);
    if let NodeView::Combine { inputs, .. } = node_at_turn(state, turn) {
        lemma_field_slots_len(layout, inputs);
        let from = layout.field_slots(inputs)->Ok_0;
        assert forall|k: int| 0 <= k < inputs.len() implies field_is_in(
            state,
            turn,
            #[trigger] inputs[k],
            from[k],
        ) by {
            lemma_field_left(state, turn, inputs, k);
        }
    }
}

/// Every node runs at one step of the plan, and at no other.
pub proof fn law_every_node_runs_once(state: StateView, place: int)
    requires
        compiled(state) is Ok,
        state.nodes.len() <= usize::MAX,
        0 <= place < state.nodes.len(),
    ensures
        layout_of(state).order.len() == state.nodes.len(),
        exists|turn: int|
            0 <= turn < state.nodes.len() && (#[trigger] layout_of(state).order[turn]).0 == place,
        forall|a: int, b: int|
            0 <= a < b < state.nodes.len() ==> (#[trigger] layout_of(state).order[a]).0 != (
            #[trigger] layout_of(state).order[b]).0,
{
    lemma_layout(state);
    let order = layout_of(state).order;
    let handle = NodeHandle(place as usize);
    assert(order.contains(handle));
    let turn = choose|turn: int| 0 <= turn < order.len() && order[turn] == handle;
    assert(order[turn].0 == place);
}

/// The plan yields the field that is asked for: its final slot is the one in which
/// the node of that name leaves its field.
pub proof fn law_final_slot_holds_the_final_field(state: StateView)
    requires
        compiled(state) is Ok,
        state.nodes.len() <= usize::MAX,
    ensures
        compiled(state)->Ok_0.planner_meta.dimension == state.dimension,
        field_is_in(
            state,
            state.nodes.len() as int,
            state.final_field,
            compiled(state)->Ok_0.planner_meta.final_slot,
        ),
        compiled(state)->Ok_0.static_buffers.len() == 0,
{
    let layout = layout_of(state);
    let target = handle_of(state.nodes, state.final_field)->Ok_0;
    lemma_layout(state);
    lemma_place_has_name(state.nodes, state.final_field);
    assert(layout.order.contains(target));
    let turn = choose|turn: int| 0 <= turn < layout.order.len() && layout.order[turn] == target;
    lemma_told(state, turn);
    law_writes_are_own_slots(state, turn);
    let final_slot = compiled(state)->Ok_0.planner_meta.final_slot;
    let written = payload_writes(told(compiled(state)->Ok_0, turn));
    assert(written[0] == final_slot);
    assert(leaves_field(state, turn, state.final_field, final_slot));
}

/// No kernel of a plan writes a slot that another one writes, or one that every
/// plan has.
pub proof fn law_kernels_write_apart(state: StateView, a: int, b: int)
    requires
        compiled(state) is Ok,
        slots_fit(state),
        state.nodes.len() <= usize::MAX,
        0 <= a < state.nodes.len(),
        0 <= b < state.nodes.len(),
    ensures
        forall|slot: BufferSlot|
            #[trigger] payload_writes(told(compiled(state)->Ok_0, a)).contains(slot) ==> {
                &&& slot.0 > SLOT_BASE_X && slot.0 > SLOT_BASE_Y && slot.0 > SLOT_BASE_Z
                &&& slot.0 > SLOT_QUERY_META && slot.0 > SLOT_QUERY_F32 && slot.0
                    > SLOT_QUERY_OFFSETS
                &&& a != b ==> !payload_writes(told(compiled(state)->Ok_0, b)).contains(slot)
            },
        payload_writes(told(compiled(state)->Ok_0, a)).no_duplicates(),
{
    let layout = layout_of(state);
    lemma_layout(state);
    lemma_told(state, a);
    lemma_told(state, b);
    law_writes_are_own_slots(state, a);
    law_writes_are_own_slots(state, b);
    law_slots_are_own(state, layout.order[a]);
    if a != b {
        law_slots_are_apart(state, layout.order[a], layout.order[b]);
    }
}

/// The slots that every plan has are numbered from zero.
pub proof fn law_fixed_slots_are_numbered()
    ensures
        SLOT_QUERY_META == 0,
        SLOT_QUERY_F32 == 1,
        SLOT_QUERY_OFFSETS == 2,
        SLOT_BASE_X == 3,
        SLOT_BASE_Y == 4,
        SLOT_BASE_Z == 5,
        SLOT_DYNAMIC_START == 6,
{
}

/// A plan begins with a kernel that lays out grids of the dimension of the graph
/// and is bound to read sizes, places and offsets of the queries. No other kernel
/// is bound, and every kernel runs over the whole batch.
pub proof fn law_plan_begins_with_grids(state: StateView, stage: int)
    requires
        compiled(state) is Ok,
        0 <= stage < compiled(state)->Ok_0.stages.len(),
    ensures
        compiled(state)->Ok_0.stages[stage].len() == 1,
        compiled(state)->Ok_0.stages[stage][0].dispatch == DispatchHint::WholeBatch,
        stage == 0 ==> {
            let kernel = compiled(state)->Ok_0.stages[stage][0];
            &&& prepared(kernel) == Ok::<PreparedView, ErrorView>(
                PreparedView::GridInit(state.dimension),
            )
            &&& kernel.payload.len() == 0
            &&& kernel.bindings.len() == 3
            &&& forall|i: int|
                0 <= i < 3 ==> (#[trigger] kernel.bindings[i]).access == BufferAccess::Read
            &&& kernel.bindings[0].slot == BufferSlot(SLOT_QUERY_META)
            &&& kernel.bindings[1].slot == BufferSlot(SLOT_QUERY_F32)
            &&& kernel.bindings[2].slot == BufferSlot(SLOT_QUERY_OFFSETS)
        },
        stage > 0 ==> compiled(state)->Ok_0.stages[stage][0].bindings.len() == 0,
{
    let layout = layout_of(state);
    law_every_kernel_is_accepted(state, stage);
    lemma_first_stage(layout, state.dimension, layout.order.len() as int);
    if stage > 0 {
        lemma_stage_at(layout, state.dimension, layout.order.len() as int, stage - 1);
    }
}

/// The node that a slot belongs to.
proof fn lemma_slot_has_owner(layout: Layout, count: int, k: int) -> (turn: int)
    requires
        0 <= count <= layout.order.len(),
        0 <= k < layout.slots_before(count),
    ensures
        0 <= turn < count,
        layout.slots_before(turn) <= k < layout.slots_before(turn + 1),
    decreases count,
{
    if k >= layout.slots_before(count - 1) {
        count - 1
    } else {
        lemma_slot_has_owner(layout, count - 1, k)
    }
}

/// The buffers of a plan stand in the order of their slots, without a gap but for
/// the third coordinate of a grid in the plane. Those of sizes and offsets hold
/// words, all others numbers. Behind those that every plan has, there is one for
/// each slot that a kernel writes, and no more.
pub proof fn law_buffers_are_numbered(state: StateView, i: int)
    requires
        compiled(state) is Ok,
        slots_fit(state),
        state.nodes.len() <= usize::MAX,
        0 <= i < compiled(state)->Ok_0.buffers.len(),
    ensures
        compiled(state)->Ok_0.buffers.len() >= 5,
        compiled(state)->Ok_0.buffers[i].slot.0 == if i < 5 || state.dimension
            == GraphDimension::D3 {
            i
        } else {
            i + 1
        },
        compiled(state)->Ok_0.buffers[i].layout == BufferLayout::Dynamic,
        compiled(state)->Ok_0.buffers[i].element_kind == if i == 0 || i == 2 {
            ElementKind::U32
        } else {
            ElementKind::F32
        },
        compiled(state)->Ok_0.buffers[i].slot.0 > SLOT_BASE_Z ==> exists|turn: int|
            0 <= turn < state.nodes.len() && #[trigger] payload_writes(
                told(compiled(state)->Ok_0, turn),
            ).contains(compiled(state)->Ok_0.buffers[i].slot),
        state.dimension == GraphDimension::D3 ==> compiled(state)->Ok_0.buffers.len() >= 6,
{
    let layout = layout_of(state);
    let count = layout.order.len() as int;
    lemma_layout(state);
    layout.lemma_slots_in_all();
    let fixed = fixed_buffers(state.dimension).len();
    let buffers = compiled(state)->Ok_0.buffers;
    if i >= fixed {
        let k = i - fixed;
        let turn = lemma_slot_has_owner(layout, count, k);
        lemma_told(state, turn);
        law_writes_are_own_slots(state, turn);
        lemma_index(layout.order, turn);
        lemma_slot_range(state, layout.order[turn]);
        let slots = layout.node_slots(layout.order[turn]);
        let within = k - layout.slots_before(turn);
        assert(buffers[i].slot.0 == SLOT_DYNAMIC_START + k);
        assert(slots[within].0 == SLOT_DYNAMIC_START + k);
        assert(slots[within] == buffers[i].slot);
        assert(payload_writes(told(compiled(state)->Ok_0, turn)).contains(buffers[i].slot));
    }
}

/// The names that a node reads, in order.
pub open spec fn names_read(node: NodeView) -> Seq<Seq<char>> {
    match node {
        NodeView::Warp { source, .. } | NodeView::Sample { source, .. } => match source {
            SourceView::Base => seq![],
            SourceView::Node(id) => seq![id],
        },
        NodeView::Combine { inputs, .. } => inputs,
    }
}

/// The node at `place` has the name `id`.
pub open spec fn is_named(nodes: Seq<NodeView>, place: int, id: Seq<char>) -> bool {
    &&& 0 <= place < nodes.len()
    &&& match nodes[place] {
        NodeView::Warp { id: name, .. } => name == id,
        NodeView::Sample { id: name, .. } => name == id,
        NodeView::Combine { id: name, .. } => name == id,
    }
}

/// Some node has the name `id`.
pub open spec fn is_known(nodes: Seq<NodeView>, id: Seq<char>) -> bool {
    exists|place: int| is_named(nodes, place, id)
}

/// Some node with the name `id` moves positions of the given dimension.
pub open spec fn is_warp_of(nodes: Seq<NodeView>, id: Seq<char>, dimension: GraphDimension) -> bool {
    exists|place: int| #[trigger]
        is_named(nodes, place, id) && (nodes[place] matches NodeView::Warp { dimension: own, .. }
            && own == dimension)
}

/// Some node with the name `id` produces a field.
pub open spec fn is_field(nodes: Seq<NodeView>, id: Seq<char>) -> bool {
    exists|place: int| #[trigger] is_named(nodes, place, id) && !(nodes[place] is Warp)
}

/// A node can be given a kernel: it reads positions of its own dimension, or as
/// many fields as its operation takes, with as many parameters.
pub open spec fn is_sound(nodes: Seq<NodeView>, node: NodeView) -> bool {
    match node {
        NodeView::Warp { dimension, source, .. } | NodeView::Sample { dimension, source, .. } => {
            source matches SourceView::Node(id) ==> is_warp_of(nodes, id, dimension)
        },
        NodeView::Combine { op, inputs, params, .. } => {
            &&& match op {
                CombineOp::Add | CombineOp::Sub | CombineOp::Mul | CombineOp::Min | CombineOp::Max => {
                    inputs.len() == 2 && params.len() == 0
                },
                CombineOp::Clamp => inputs.len() == 1 && params.len() == 2,
                CombineOp::Remap | CombineOp::YGradient => inputs.len() == 1 && params.len() == 4,
            }
            &&& forall|k: int| 0 <= k < inputs.len() ==> is_field(nodes, #[trigger] inputs[k])
        },
    }
}

/// A name leads to the node that has it, and is refused where there is none.
pub proof fn law_names_lead_to_nodes(nodes: Seq<NodeView>, id: Seq<char>)
    requires
        nodes.len() <= usize::MAX,
    ensures
        handle_of(nodes, id) is Ok <==> is_known(nodes, id),
        handle_of(nodes, id) is Ok ==> is_named(
            nodes,
            (handle_of(nodes, id)->Ok_0).0 as int,
            id,
        ),
{
    if is_known(nodes, id) {
        let place = choose|place: int| is_named(nodes, place, id);
        assert(nodes[place].id() == id);
    }
    if handle_of(nodes, id) is Ok {
        lemma_place_has_name(nodes, id);
        assert(is_named(nodes, (handle_of(nodes, id)->Ok_0).0 as int, id));
    }
}

proof fn lemma_handles_known(nodes: Seq<NodeView>, ids: Seq<Seq<char>>)
    requires
        nodes.len() <= usize::MAX,
    ensures
        handles_of(nodes, ids) is Ok <==> (forall|k: int|
            0 <= k < ids.len() ==> is_known(nodes, #[trigger] ids[k])),
    decreases ids.len(),
{
    if ids.len() > 0 {
        let rest = ids.drop_last();
        lemma_handles_known(nodes, rest);
        law_names_lead_to_nodes(nodes, ids.last());
        if forall|k: int| 0 <= k < ids.len() ==> is_known(nodes, #[trigger] ids[k]) {
            assert forall|k: int| 0 <= k < rest.len() implies is_known(
                nodes,
                #[trigger] rest[k],
            ) by {
                assert(is_known(nodes, ids[k]));
            }
            assert(is_known(nodes, ids[ids.len() - 1]));
        }
        if handles_of(nodes, ids) is Ok {
            assert forall|k: int| 0 <= k < ids.len() implies is_known(nodes, #[trigger] ids[k]) by {
                if k < rest.len() {
                    assert(is_known(nodes, rest[k]));
                }
            }
        }
    }
}

/// Every name that the first `count` nodes read is known.
spec fn reads_known(nodes: Seq<NodeView>, count: int) -> bool {
    forall|x: int, k: int|
        0 <= x < count && 0 <= k < names_read(nodes[x]).len() ==> is_known(
            nodes,
            #[trigger] names_read(nodes[x])[k],
        )
}

proof fn lemma_lists_known(nodes: Seq<NodeView>, count: nat)
    requires
        nodes.len() <= usize::MAX,
        count <= nodes.len(),
    ensures
        dependency_lists(nodes, count) is Ok <==> reads_known(nodes, count as int),
    decreases count,
{
    if count > 0 {
        let last = count - 1;
        lemma_lists_known(nodes, last as nat);
        lemma_handles_known(nodes, nodes[last].reads());
        assert(names_read(nodes[last]) =~= nodes[last].reads());
        if dependency_lists(nodes, count) is Ok {
            assert forall|x: int, k: int|
                0 <= x < count && 0 <= k < names_read(nodes[x]).len() implies is_known(
                nodes,
                #[trigger] names_read(nodes[x])[k],
            ) by {
                if x == last {
                    assert(is_known(nodes, nodes[last].reads()[k]));
                }
            }
        }
        if reads_known(nodes, count as int) {
            assert forall|k: int| 0 <= k < nodes[last].reads().len() implies is_known(
                nodes,
                #[trigger] nodes[last].reads()[k],
            ) by {
                assert(is_known(nodes, names_read(nodes[last])[k]));
            }
        }
    }
}

/// The dependencies of a node are the nodes whose names it reads, in its order;
/// they are refused if and only if some node reads a name that no node has.
pub proof fn law_dependencies_are_names_read(nodes: Seq<NodeView>)
    requires
        nodes.len() <= usize::MAX,
    ensures
        dependency_lists(nodes, nodes.len()) is Ok <==> (forall|x: int, k: int|
            0 <= x < nodes.len() && 0 <= k < names_read(nodes[x]).len() ==> is_known(
                nodes,
                #[trigger] names_read(nodes[x])[k],
            )),
        dependency_lists(nodes, nodes.len()) matches Ok(deps) ==> {
            &&& deps.len() == nodes.len()
            &&& forall|x: int|
                0 <= x < nodes.len() ==> (#[trigger] deps[x]).len() == names_read(nodes[x]).len()
            &&& forall|x: int, k: int|
                0 <= x < nodes.len() && 0 <= k < deps[x].len() ==> is_named(
                    nodes,
                    (#[trigger] deps[x][k]).0 as int,
                    names_read(nodes[x])[k],
                )
        },
{
    lemma_lists_known(nodes, nodes.len());
    if let Ok(deps) = dependency_lists(nodes, nodes.len()) {
        lemma_dependency_lists_len(nodes, nodes.len());
        assert forall|x: int| 0 <= x < nodes.len() implies (#[trigger] deps[x]).len()
            == names_read(nodes[x]).len() by {
            lemma_dependency_list(nodes, nodes.len(), x);
            lemma_handles_len(nodes, nodes[x].reads());
            assert(names_read(nodes[x]) =~= nodes[x].reads());
        }
        assert forall|x: int, k: int| 0 <= x < nodes.len() && 0 <= k < deps[x].len() implies is_named(
            nodes,
            (#[trigger] deps[x][k]).0 as int,
            names_read(nodes[x])[k],
        ) by {
            assert(deps[x].len() == names_read(nodes[x]).len());
            lemma_dependency_list(nodes, nodes.len(), x);
            lemma_handles(nodes, nodes[x].reads(), k);
            assert(names_read(nodes[x]) =~= nodes[x].reads());
            law_names_lead_to_nodes(nodes, names_read(nodes[x])[k]);
        }
    }
}

proof fn lemma_stages_ok(layout: Layout, dimension: GraphDimension, count: int)
    requires
        0 <= count,
        forall|i: int| 0 <= i < count ==> layout.kernel(#[trigger] layout.order[i]) is Ok,
    ensures
        layout.stages(dimension, count) is Ok,
    decreases count,
{
    if count > 0 {
        lemma_stages_ok(layout, dimension, count - 1);
        assert(layout.kernel(layout.order[count - 1]) is Ok);
    }
}

/// Where a name leads among distinct names.
proof fn lemma_only_place(nodes: Seq<NodeView>, id: Seq<char>, place: int)
    requires
        nodes.len() <= usize::MAX,
        distinct_ids(nodes),
        is_named(nodes, place, id),
    ensures
        handle_of(nodes, id) == Ok::<NodeHandle, ErrorView>(NodeHandle(place as usize)),
{
    assert(nodes[place].id() == id);
    lemma_place(nodes, place);
}

proof fn lemma_warp_found(state: StateView, id: Seq<char>, dimension: GraphDimension)
    requires
        state.nodes.len() <= usize::MAX,
        distinct_ids(state.nodes),
    ensures
        layout_of(state).source_slots(SourceView::Node(id), dimension) is Ok <==> is_warp_of(
            state.nodes,
            id,
            dimension,
        ),
{
    law_names_lead_to_nodes(state.nodes, id);
    if is_warp_of(state.nodes, id, dimension) {
        let place = choose|place: int| #[trigger]
            is_named(state.nodes, place, id) && (state.nodes[place] matches NodeView::Warp {
                dimension: own,
                ..
            } && own == dimension);
        lemma_only_place(state.nodes, id, place);
    } else if layout_of(state).source_slots(SourceView::Node(id), dimension) is Ok {
        let place = (handle_of(state.nodes, id)->Ok_0).0 as int;
        assert(is_named(state.nodes, place, id));
    }
}

proof fn lemma_field_found(state: StateView, id: Seq<char>)
    requires
        state.nodes.len() <= usize::MAX,
        distinct_ids(state.nodes),
    ensures
        (handle_of(state.nodes, id) is Ok && layout_of(state).scalar_slot(
            handle_of(state.nodes, id)->Ok_0,
        ) is Ok) <==> is_field(state.nodes, id),
{
    law_names_lead_to_nodes(state.nodes, id);
    if is_field(state.nodes, id) {
        let place = choose|place: int| #[trigger]
            is_named(state.nodes, place, id) && !(state.nodes[place] is Warp);
        lemma_only_place(state.nodes, id, place);
    } else if handle_of(state.nodes, id) is Ok {
        let place = (handle_of(state.nodes, id)->Ok_0).0 as int;
        assert(is_named(state.nodes, place, id));
    }
}

proof fn lemma_fields_found(state: StateView, ids: Seq<Seq<char>>)
    requires
        state.nodes.len() <= usize::MAX,
        distinct_ids(state.nodes),
    ensures
        layout_of(state).field_slots(ids) is Ok <==> (forall|k: int|
            0 <= k < ids.len() ==> is_field(state.nodes, #[trigger] ids[k])),
    decreases ids.len(),
{
    if ids.len() > 0 {
        let rest = ids.drop_last();
        lemma_fields_found(state, rest);
        lemma_field_found(state, ids.last());
        if layout_of(state).field_slots(ids) is Ok {
            assert forall|k: int| 0 <= k < ids.len() implies is_field(
                state.nodes,
                #[trigger] ids[k],
            ) by {
                if k < rest.len() {
                    assert(is_field(state.nodes, rest[k]));
                }
            }
        }
        if forall|k: int| 0 <= k < ids.len() ==> is_field(state.nodes, #[trigger] ids[k]) {
            assert forall|k: int| 0 <= k < rest.len() implies is_field(
                state.nodes,
                #[trigger] rest[k],
            ) by {
                assert(is_field(state.nodes, ids[k]));
            }
            assert(is_field(state.nodes, ids[ids.len() - 1]));
        }
    }
}

proof fn lemma_kernel_iff_sound(state: StateView, handle: NodeHandle)
    requires
        state.nodes.len() <= usize::MAX,
        distinct_ids(state.nodes),
        handle.0 < state.nodes.len(),
    ensures
        layout_of(state).kernel(handle) is Ok <==> is_sound(
            state.nodes,
            state.nodes[handle.0 as int],
        ),
{
    match state.nodes[handle.0 as int] {
        NodeView::Warp { dimension, source, .. } | NodeView::Sample { dimension, source, .. } => {
            if let SourceView::Node(id) = source {
                lemma_warp_found(state, id, dimension);
            }
        },
        NodeView::Combine { inputs, .. } => {
            lemma_fields_found(state, inputs);
        },
    }
}

/// A graph compiles if and only if every name that is read or asked for is known,
/// no node depends on itself, positions are read from warps of the same
/// dimension, combinations have the numbers of inputs and parameters that their
/// operations take and read fields, and what is asked for is a field.
pub proof fn law_what_compiles(state: StateView)
    requires
        distinct_ids(state.nodes),
        state.nodes.len() <= usize::MAX,
    ensures
        compiled(state) is Ok <==> {
            &&& dependency_lists(state.nodes, state.nodes.len()) is Ok
            &&& !(exists|cycle: Seq<NodeHandle>|
                is_cycle(dependency_lists(state.nodes, state.nodes.len())->Ok_0, cycle))
            &&& forall|place: int|
                0 <= place < state.nodes.len() ==> is_sound(
                    state.nodes,
                    #[trigger] state.nodes[place],
                )
            &&& is_field(state.nodes, state.final_field)
        },
{
    let layout = layout_of(state);
    let sound = forall|place: int|
        0 <= place < state.nodes.len() ==> is_sound(state.nodes, #[trigger] state.nodes[place]);
    lemma_field_found(state, state.final_field);
    if dependency_lists(state.nodes, state.nodes.len()) is Ok && handle_of(
        state.nodes,
        state.final_field,
    ) is Ok {
        law_cycles_are_refused(state);
        if graph_refusal(state) is None {
            lemma_layout(state);
            let count = layout.order.len() as int;
            if sound {
                assert forall|i: int| 0 <= i < count implies layout.kernel(
                    #[trigger] layout.order[i],
                ) is Ok by {
                    lemma_kernel_iff_sound(state, layout.order[i]);
                }
                lemma_stages_ok(layout, state.dimension, count);
            }
            if compiled(state) is Ok {
                assert forall|place: int| 0 <= place < state.nodes.len() implies is_sound(
                    state.nodes,
                    #[trigger] state.nodes[place],
                ) by {
                    let handle = NodeHandle(place as usize);
                    assert(layout.order.contains(handle));
                    let turn = choose|turn: int|
                        0 <= turn < layout.order.len() && layout.order[turn] == handle;
                    lemma_stage_at(layout, state.dimension, count, turn);
                    lemma_kernel_iff_sound(state, handle);
                }
            }
        }
    }
}

proof fn lemma_first_missing(nodes: Seq<NodeView>, ids: Seq<Seq<char>>, k: int)
    requires
        nodes.len() <= usize::MAX,
        0 <= k < ids.len(),
        !is_known(nodes, ids[k]),
        forall|j: int| 0 <= j < k ==> is_known(nodes, #[trigger] ids[j]),
    ensures
        handles_of(nodes, ids) == Err::<Seq<NodeHandle>, ErrorView>(
            ErrorView::InvalidSpec("missing node '"@ + ids[k] + "'"@),
        ),
    decreases ids.len(),
{
    let rest = ids.drop_last();
    if k < rest.len() {
        assert forall|j: int| 0 <= j < k implies is_known(nodes, #[trigger] rest[j]) by {
            assert(is_known(nodes, ids[j]));
        }
        lemma_first_missing(nodes, rest, k);
    } else {
        assert forall|j: int| 0 <= j < rest.len() implies is_known(nodes, #[trigger] rest[j]) by {
            assert(is_known(nodes, ids[j]));
        }
        lemma_handles_known(nodes, rest);
        law_names_lead_to_nodes(nodes, ids.last());
    }
}

proof fn lemma_first_missing_list(nodes: Seq<NodeView>, count: nat, x: int, k: int)
    requires
        nodes.len() <= usize::MAX,
        0 <= x < count <= nodes.len(),
        reads_known(nodes, x),
        0 <= k < names_read(nodes[x]).len(),
        !is_known(nodes, names_read(nodes[x])[k]),
        forall|j: int| 0 <= j < k ==> is_known(nodes, #[trigger] names_read(nodes[x])[j]),
    ensures
        dependency_lists(nodes, count) == Err::<Seq<Seq<NodeHandle>>, ErrorView>(
            ErrorView::InvalidSpec("missing node '"@ + names_read(nodes[x])[k] + "'"@),
        ),
    decreases count,
{
    if x < count - 1 {
        lemma_first_missing_list(nodes, (count - 1) as nat, x, k);
    } else {
        lemma_lists_known(nodes, x as nat);
        assert(names_read(nodes[x]) =~= nodes[x].reads());
        lemma_first_missing(nodes, names_read(nodes[x]), k);
    }
}

/// A graph in which a name is read that no node has is refused, and the first such
/// name is told.
pub proof fn law_first_missing_name_is_told(state: StateView, x: int, k: int)
    requires
        state.nodes.len() <= usize::MAX,
        0 <= x < state.nodes.len(),
        0 <= k < names_read(state.nodes[x]).len(),
        !is_known(state.nodes, names_read(state.nodes[x])[k]),
        forall|y: int, j: int|
            0 <= y < x && 0 <= j < names_read(state.nodes[y]).len() ==> is_known(
                state.nodes,
                #[trigger] names_read(state.nodes[y])[j],
            ),
        forall|j: int|
            0 <= j < k ==> is_known(state.nodes, #[trigger] names_read(state.nodes[x])[j]),
    ensures
        compiled(state) == Err::<PlanView, ErrorView>(
            ErrorView::InvalidSpec("missing node '"@ + names_read(state.nodes[x])[k] + "'"@),
        ),
{
    lemma_first_missing_list(state.nodes, state.nodes.len(), x, k);
}

/// Where all names that are read are known, a graph is refused if the name that is
/// asked for is not, and that name is told; where that one is known as well, it is
/// refused for a cycle, if there is one.
pub proof fn law_missing_field_comes_before_cycles(state: StateView)
    requires
        state.nodes.len() <= usize::MAX,
        dependency_lists(state.nodes, state.nodes.len()) is Ok,
    ensures
        !is_known(state.nodes, state.final_field) ==> compiled(state) == Err::<
            PlanView,
            ErrorView,
        >(ErrorView::InvalidSpec("missing node '"@ + state.final_field + "'"@)),
        is_known(state.nodes, state.final_field) && (exists|cycle: Seq<NodeHandle>|
            is_cycle(dependency_lists(state.nodes, state.nodes.len())->Ok_0, cycle))
            ==> compiled(state) == Err::<PlanView, ErrorView>(
            ErrorView::InvalidSpec("cycle detected in fastnoise graph"@),
        ),
{
    law_names_lead_to_nodes(state.nodes, state.final_field);
    if is_known(state.nodes, state.final_field) {
        law_cycles_are_refused(state);
    }
}

proof fn lemma_stages_stop(layout: Layout, dimension: GraphDimension, count: int, turn: int)
    requires
        0 <= turn < count,
        layout.stages(dimension, turn) is Ok,
        layout.kernel(layout.order[turn]) is Err,
    ensures
        layout.stages(dimension, count) == Err::<Seq<Seq<KernelView>>, ErrorView>(
            layout.kernel(layout.order[turn])->Err_0,
        ),
    decreases count,
{
    if turn < count - 1 {
        lemma_stages_stop(layout, dimension, count - 1, turn);
    }
}

proof fn lemma_fields_missing(state: StateView, ids: Seq<Seq<char>>)
    requires
        state.nodes.len() <= usize::MAX,
        forall|k: int| 0 <= k < ids.len() ==> is_known(state.nodes, #[trigger] ids[k]),
    ensures
        layout_of(state).field_slots(ids) matches Err(error) ==> error == ErrorView::InvalidSpec(
            "missing scalar slot"@,
        ),
    decreases ids.len(),
{
    if ids.len() > 0 {
        let rest = ids.drop_last();
        assert forall|k: int| 0 <= k < rest.len() implies is_known(state.nodes, #[trigger] rest[k]) by {
            assert(is_known(state.nodes, ids[k]));
        }
        lemma_fields_missing(state, rest);
        assert(is_known(state.nodes, ids[ids.len() - 1]));
        law_names_lead_to_nodes(state.nodes, ids.last());
    }
}

/// Why a node that cannot be given a kernel is refused.
proof fn lemma_unsound_kernel(state: StateView, handle: NodeHandle)
    requires
        graph_refusal(state) is None,
        distinct_ids(state.nodes),
        state.nodes.len() <= usize::MAX,
        handle.0 < state.nodes.len(),
        !is_sound(state.nodes, state.nodes[handle.0 as int]),
    ensures
        layout_of(state).kernel(handle) is Err,
        match state.nodes[handle.0 as int] {
            NodeView::Warp { .. } | NodeView::Sample { .. } => layout_of(state).kernel(
                handle,
            )->Err_0 == ErrorView::InvalidSpec("missing position slots"@),
            NodeView::Combine { op, inputs, params, .. } => layout_of(state).kernel(handle)->Err_0
                == match arity_refusal(op, inputs.len(), params.len()) {
                Some(error) => error,
                None => ErrorView::InvalidSpec("missing scalar slot"@),
            },
        },
{
    let node = state.nodes[handle.0 as int];
    lemma_kernel_iff_sound(state, handle);
    law_dependencies_are_names_read(state.nodes);
    match node {
        NodeView::Warp { source, .. } | NodeView::Sample { source, .. } => {
            if let SourceView::Node(id) = source {
                assert(names_read(node)[0] == id);
                assert(is_known(state.nodes, names_read(node)[0]));
                law_names_lead_to_nodes(state.nodes, id);
            }
        },
        NodeView::Combine { inputs, .. } => {
            assert forall|k: int| 0 <= k < inputs.len() implies is_known(
                state.nodes,
                #[trigger] inputs[k],
            ) by {
                assert(is_known(state.nodes, names_read(node)[k]));
            }
            lemma_fields_missing(state, inputs);
        },
    }
}

/// Of the nodes that cannot be given kernels, the one that comes first in the
/// schedule is told of: that it reads positions where there are none, that it got
/// a wrong number of inputs or parameters, or that it reads a field where there is
/// none.
pub proof fn law_first_unsound_node_is_told(state: StateView, turn: int)
    requires
        graph_refusal(state) is None,
        distinct_ids(state.nodes),
        state.nodes.len() <= usize::MAX,
        0 <= turn < state.nodes.len(),
        !is_sound(state.nodes, node_at_turn(state, turn)),
        forall|i: int| 0 <= i < turn ==> is_sound(state.nodes, #[trigger] node_at_turn(state, i)),
    ensures
        compiled(state) is Err,
        match node_at_turn(state, turn) {
            NodeView::Warp { .. } | NodeView::Sample { .. } => compiled(state)->Err_0
                == ErrorView::InvalidSpec("missing position slots"@),
            NodeView::Combine { op, inputs, params, .. } => compiled(state)->Err_0
                == match arity_refusal(op, inputs.len(), params.len()) {
                Some(error) => error,
                None => ErrorView::InvalidSpec("missing scalar slot"@),
            },
        },
{
    let layout = layout_of(state);
    lemma_layout(state);
    lemma_dependency_lists_len(state.nodes, state.nodes.len());
    assert(layout.order[turn].0 < state.nodes.len());
    assert forall|i: int| 0 <= i < turn implies layout.kernel(#[trigger] layout.order[i]) is Ok by {
        assert(is_sound(state.nodes, node_at_turn(state, i)));
        lemma_kernel_iff_sound(state, layout.order[i]);
    }
    lemma_unsound_kernel(state, layout.order[turn]);
    lemma_stages_ok(layout, state.dimension, turn);
    lemma_stages_stop(layout, state.dimension, layout.order.len() as int, turn);
}

/// Where every node can be given a kernel, but what is asked for is no field, that
/// is told.
pub proof fn law_final_warp_is_told(state: StateView)
    requires
        graph_refusal(state) is None,
        distinct_ids(state.nodes),
        state.nodes.len() <= usize::MAX,
        forall|place: int|
            0 <= place < state.nodes.len() ==> is_sound(state.nodes, #[trigger] state.nodes[place]),
        !is_field(state.nodes, state.final_field),
    ensures
        compiled(state) == Err::<PlanView, ErrorView>(
            ErrorView::InvalidSpec("missing scalar slot"@),
        ),
{
    let layout = layout_of(state);
    let count = layout.order.len() as int;
    lemma_layout(state);
    lemma_dependency_lists_len(state.nodes, state.nodes.len());
    assert forall|i: int| 0 <= i < count implies layout.kernel(#[trigger] layout.order[i]) is Ok by {
        assert(layout.order[i].0 < state.nodes.len());
        lemma_kernel_iff_sound(state, layout.order[i]);
    }
    lemma_stages_ok(layout, state.dimension, count);
    lemma_field_found(state, state.final_field);
}

/// A plan has a stage for the grids and one for each node, tells the dimension of
/// its graph, and holds no buffers whose contents are known beforehand.
pub proof fn law_plan_is_for_its_graph(state: StateView)
    requires
        compiled(state) is Ok,
        state.nodes.len() <= usize::MAX,
    ensures
        compiled(state)->Ok_0.planner_meta.dimension == state.dimension,
        compiled(state)->Ok_0.static_buffers.len() == 0,
        compiled(state)->Ok_0.stages.len() == state.nodes.len() + 1,
{
    let layout = layout_of(state);
    lemma_layout(state);
    lemma_dependency_lists_len(state.nodes, state.nodes.len());
    lemma_first_stage(layout, state.dimension, layout.order.len() as int);
}

/// Compiling comes as far as writing the payload of a kernel if and only if the
/// graph can be laid out and the node that runs first can be given its kernel.
pub proof fn law_payloads_are_written_from_the_first(state: StateView)
    requires
        distinct_ids(state.nodes),
        state.nodes.len() <= usize::MAX,
    ensures
        writes_payloads(state) <==> {
            &&& graph_refusal(state) is None
            &&& state.nodes.len() > 0
            &&& is_sound(state.nodes, node_at_turn(state, 0))
        },
{
    if graph_refusal(state) is None {
        lemma_layout(state);
        lemma_dependency_lists_len(state.nodes, state.nodes.len());
        if state.nodes.len() > 0 {
            assert(layout_of(state).order[0].0 < state.nodes.len());
            lemma_kernel_iff_sound(state, layout_of(state).order[0]);
        }
    }
}

/// Slots are given out in turn: the first node that runs gets the first slot behind
/// the fixed ones, each further node the one behind the last slot of the node
/// before it, and the coordinates of positions follow one another.
pub proof fn law_slots_are_given_in_turn(state: StateView, turn: int)
    requires
        compiled(state) is Ok,
        slots_fit(state),
        state.nodes.len() <= usize::MAX,
        0 <= turn < state.nodes.len(),
    ensures
        ({
            let slots = payload_writes(told(compiled(state)->Ok_0, turn));
            &&& slots.len() == match node_at_turn(state, turn) {
                NodeView::Warp { dimension: GraphDimension::D2, .. } => 2nat,
                NodeView::Warp { dimension: GraphDimension::D3, .. } => 3nat,
                _ => 1nat,
            }
            &&& forall|k: int|
                0 <= k < slots.len() ==> (#[trigger] slots[k]).0 == slots[0].0 + k
            &&& turn == 0 ==> slots[0].0 == 6
            &&& turn > 0 ==> slots[0].0 == payload_writes(
                told(compiled(state)->Ok_0, turn - 1),
            ).last().0 + 1
        }),
{
    let layout = layout_of(state);
    let handle = layout.order[turn];
    lemma_layout(state);
    lemma_told(state, turn);
    law_writes_are_own_slots(state, turn);
    lemma_index(layout.order, turn);
    lemma_slot_range(state, handle);
    assert(layout.node_slots(handle)[0].0 == SLOT_DYNAMIC_START + layout.slots_before(turn));
    if turn > 0 {
        let before = layout.order[turn - 1];
        lemma_told(state, turn - 1);
        law_writes_are_own_slots(state, turn - 1);
        lemma_index(layout.order, turn - 1);
        lemma_slot_range(state, before);
        let slots = layout.node_slots(before);
        assert(slots.last() == slots[slots.len() - 1]);
    }
}

} // verus!

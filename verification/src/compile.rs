//! Compiling a graph to a plan.

use vstd::prelude::*;

use crate::combine::validate_combine_contract;
use crate::error::{ErrorView, FastNoiseResult, invalid_spec, outcome};
use crate::graph::{CompileNodes, allocate_position_slots, allocate_slot, base_position_slots_2, base_position_slots_3, collect_dependencies, dependency_lists, dynamic_f32_buffer, expect_position_slots, expect_scalar_slot, f32_buffer, handle_of, lemma_place_in_range, resolve_node, resolve_position_source, u32_buffer};
use crate::kernel_payload::{CombinePayload, KernelPayload, PlannerScratch, SamplePayload, WarpPayload};
use crate::layout::{Layout, compiled, fixed_buffers, graph_refusal, init_kernel_view, layout_of, lemma_total_width_grows, output_width, outputs_of, schedule_of, slots_fit, total_width, writes_payloads};
use crate::model::{BufferAccess, BufferBinding, BufferLayout, BufferSlot, BufferSpec, CompiledPlan, DispatchHint, ElementKind, FastNoiseKernel, FastNoisePlannerMeta, GraphDimension, KernelSpec, KernelView, NodeSpec, NodeView, OutputKind, PipelineShape, PositionSlots, PositionSource, SLOT_BASE_X, SLOT_BASE_Y, SLOT_BASE_Z, SLOT_DYNAMIC_START, SLOT_QUERY_F32, SLOT_QUERY_META, SLOT_QUERY_OFFSETS, SourceView, StageSpec, copy_bits, texts};
use crate::order::{NodeHandle, deps_in_range, edges, is_acyclic, is_schedule, law_schedule_is_unique, lemma_index, lists_each_once};
use crate::schedule::schedule;
use crate::state::{FastNoiseState, has_node, place_of};

verus! {

/// The dependency lists of a graph are refused for the first of them that is.
proof fn lemma_list_refusal_stays(nodes: Seq<NodeView>, few: nat, all: nat)
    requires
        few <= all,
        dependency_lists(nodes, few) is Err,
    ensures
        dependency_lists(nodes, all) == dependency_lists(nodes, few),
    decreases all,
{
    if few < all {
        lemma_list_refusal_stays(nodes, few, (all - 1) as nat);
    }
}

/// The dependency lists of all nodes.
fn dependencies(graph: &CompileNodes<'_>) -> (lists: FastNoiseResult<Vec<Vec<NodeHandle>>>)
    requires
        graph.wf(),
    ensures
        match lists {
            Ok(lists) => {
                &&& dependency_lists(graph.views(), graph.views().len()) == Ok::<
                    Seq<Seq<NodeHandle>>,
                    ErrorView,
                >(edges(lists@))
                &&& lists@.len() == graph.views().len()
                &&& deps_in_range(edges(lists@))
            },
            Err(error) => dependency_lists(graph.views(), graph.views().len()) == Err::<
                Seq<Seq<NodeHandle>>,
                ErrorView,
            >(error@),
        },
{
    let handles = graph.handles();
    let mut lists: Vec<Vec<NodeHandle>> = Vec::new();
    let mut at: usize = 0;
    assert(edges(lists@) =~= Seq::empty());
    while at < handles.len()
        invariant
            graph.wf(),
            at <= handles@.len(),
            handles@.len() == graph.views().len(),
            forall|i: int| 0 <= i < handles@.len() ==> #[trigger] handles@[i] == NodeHandle(
                i as usize,
            ),
            lists@.len() == at,
            dependency_lists(graph.views(), at as nat) == Ok::<Seq<Seq<NodeHandle>>, ErrorView>(
                edges(lists@),
            ),
            forall|x: int, j: int|
                0 <= x < at && 0 <= j < lists@[x]@.len() ==> (#[trigger] lists@[x]@[j]).0
                    < graph.views().len(),
        decreases handles@.len() - at,
    {
        assert(handles@[at as int] == NodeHandle(at));
        match collect_dependencies(graph, handles[at]) {
            Ok(list) => {
                let ghost before = edges(lists@);
                lists.push(list);
                assert(edges(lists@) =~= before.push(list@));
            },
            Err(error) => {
                proof {
                    lemma_list_refusal_stays(graph.views(), (at + 1) as nat, graph.views().len());
                }
                return Err(error);
            },
        }
        at += 1;
    }
    assert forall|x: int, j: int|
        0 <= x < edges(lists@).len() && 0 <= j < edges(lists@)[x].len() implies (
        #[trigger] edges(lists@)[x][j]).0 < edges(lists@).len() by {
        assert(edges(lists@)[x][j] == lists@[x]@[j]);
    }
    Ok(lists)
}

/// The slots that a plan has handed out to nodes.
struct Allocation {
    order: Vec<NodeHandle>,
    position_slots_2: Vec<Option<PositionSlots<2>>>,
    position_slots_3: Vec<Option<PositionSlots<3>>>,
    scalar_slots: Vec<Option<BufferSlot>>,
    buffers: Vec<BufferSpec>,
}

/// Where node `h` stands in the order.
spec fn turn(layout: Layout, h: int) -> int {
    layout.order.index_of(NodeHandle(h as usize))
}

/// `slots` holds the slots of the positions that the first `done` nodes produce.
spec fn holds_positions<const N: usize>(
    slots: Seq<Option<PositionSlots<N>>>,
    layout: Layout,
    dimension: GraphDimension,
    done: int,
) -> bool {
    &&& slots.len() == layout.nodes.len()
    &&& forall|h: int|
        0 <= h < slots.len() ==> (match #[trigger] slots[h] {
            Some(held) => {
                &&& layout.outputs[h] == OutputKind::Position(dimension)
                &&& turn(layout, h) < done
                &&& held.coords@ == layout.node_slots(NodeHandle(h as usize))
            },
            None => layout.outputs[h] != OutputKind::Position(dimension) || turn(layout, h) >= done,
        })
}

/// `slots` holds the slots of the fields that the first `done` nodes produce.
spec fn holds_fields(slots: Seq<Option<BufferSlot>>, layout: Layout, done: int) -> bool {
    &&& slots.len() == layout.nodes.len()
    &&& forall|h: int|
        0 <= h < slots.len() ==> (match #[trigger] slots[h] {
            Some(held) => {
                &&& layout.outputs[h] is Scalar
                &&& turn(layout, h) < done
                &&& held == layout.node_slots(NodeHandle(h as usize))[0]
            },
            None => !(layout.outputs[h] is Scalar) || turn(layout, h) >= done,
        })
}

/// The turns of other nodes are not the turn of the node that runs.
proof fn lemma_turns(layout: Layout, done: int)
    requires
        layout.wf(),
        0 <= done < layout.order.len(),
    ensures
        layout.order[done].0 < layout.nodes.len(),
        turn(layout, layout.order[done].0 as int) == done,
        forall|h: int|
            0 <= h < layout.nodes.len() && h != layout.order[done].0 ==> #[trigger] turn(layout, h)
                != done,
{
    lemma_index(layout.order, done);
    assert forall|h: int| 0 <= h < layout.nodes.len() && h != layout.order[done].0 implies
        #[trigger] turn(layout, h) != done by {
        assert(layout.order.contains(NodeHandle(h as usize)));
    }
}

proof fn lemma_positions_go_on<const N: usize>(
    slots: Seq<Option<PositionSlots<N>>>,
    layout: Layout,
    dimension: GraphDimension,
    done: int,
)
    requires
        layout.wf(),
        0 <= done < layout.order.len(),
        holds_positions(slots, layout, dimension, done),
        layout.outputs[layout.order[done].0 as int] != OutputKind::Position(dimension),
    ensures
        holds_positions(slots, layout, dimension, done + 1),
{
    lemma_turns(layout, done);
}

proof fn lemma_positions_join<const N: usize>(
    slots: Seq<Option<PositionSlots<N>>>,
    layout: Layout,
    dimension: GraphDimension,
    done: int,
    held: PositionSlots<N>,
)
    requires
        layout.wf(),
        0 <= done < layout.order.len(),
        holds_positions(slots, layout, dimension, done),
        layout.outputs[layout.order[done].0 as int] == OutputKind::Position(dimension),
        held.coords@ == layout.node_slots(layout.order[done]),
    ensures
        holds_positions(
            slots.update(layout.order[done].0 as int, Some(held)),
            layout,
            dimension,
            done + 1,
        ),
{
    lemma_turns(layout, done);
}

proof fn lemma_fields_go_on(slots: Seq<Option<BufferSlot>>, layout: Layout, done: int)
    requires
        layout.wf(),
        0 <= done < layout.order.len(),
        holds_fields(slots, layout, done),
        !(layout.outputs[layout.order[done].0 as int] is Scalar),
    ensures
        holds_fields(slots, layout, done + 1),
{
    lemma_turns(layout, done);
}

proof fn lemma_fields_join(
    slots: Seq<Option<BufferSlot>>,
    layout: Layout,
    done: int,
    held: BufferSlot,
)
    requires
        layout.wf(),
        0 <= done < layout.order.len(),
        holds_fields(slots, layout, done),
        layout.outputs[layout.order[done].0 as int] is Scalar,
        held == layout.node_slots(layout.order[done])[0],
    ensures
        holds_fields(
            slots.update(layout.order[done].0 as int, Some(held)),
            layout,
            done + 1,
        ),
{
    lemma_turns(layout, done);
}

/// `buffers` begins as every plan does and goes on with the buffers of the first
/// `slots` slots that are handed out.
spec fn holds_buffers(buffers: Seq<BufferSpec>, dimension: GraphDimension, slots: int) -> bool {
    buffers == fixed_buffers(dimension) + Seq::new(
        slots as nat,
        |k: int| f32_buffer(BufferSlot((SLOT_DYNAMIC_START + k) as u16)),
    )
}

proof fn lemma_buffer_joins(buffers: Seq<BufferSpec>, dimension: GraphDimension, slots: int)
    requires
        0 <= slots,
        holds_buffers(buffers, dimension, slots),
    ensures
        holds_buffers(
            buffers.push(f32_buffer(BufferSlot((SLOT_DYNAMIC_START + slots) as u16))),
            dimension,
            slots + 1,
        ),
{
    let longer = buffers.push(f32_buffer(BufferSlot((SLOT_DYNAMIC_START + slots) as u16)));
    let wanted = fixed_buffers(dimension) + Seq::new(
        (slots + 1) as nat,
        |k: int| f32_buffer(BufferSlot((SLOT_DYNAMIC_START + k) as u16)),
    );
    assert(longer =~= wanted);
}

fn dynamic_u32_buffer(slot: BufferSlot) -> (buffer: BufferSpec)
    ensures
        buffer == u32_buffer(slot),
{
    BufferSpec { slot, element_kind: ElementKind::U32, layout: BufferLayout::Dynamic }
}

/// The buffers that every plan of a dimension has.
fn start_buffers(dimension: GraphDimension) -> (buffers: Vec<BufferSpec>)
    ensures
        buffers@ == fixed_buffers(dimension),
{
    let mut buffers: Vec<BufferSpec> = Vec::new();
    buffers.push(dynamic_u32_buffer(BufferSlot(SLOT_QUERY_META)));
    buffers.push(dynamic_f32_buffer(BufferSlot(SLOT_QUERY_F32)));
    buffers.push(dynamic_u32_buffer(BufferSlot(SLOT_QUERY_OFFSETS)));
    buffers.push(dynamic_f32_buffer(BufferSlot(SLOT_BASE_X)));
    buffers.push(dynamic_f32_buffer(BufferSlot(SLOT_BASE_Y)));
    if dimension == GraphDimension::D3 {
        buffers.push(dynamic_f32_buffer(BufferSlot(SLOT_BASE_Z)));
    }
    assert(buffers@ =~= fixed_buffers(dimension));
    buffers
}

/// As many empty places as there are nodes.
fn empty_places<T>(count: usize) -> (places: Vec<Option<T>>)
    ensures
        places@.len() == count,
        forall|i: int| 0 <= i < count ==> #[trigger] places@[i] is None,
{
    let mut places: Vec<Option<T>> = Vec::new();
    let mut at: usize = 0;
    while at < count
        invariant
            at <= count,
            places@.len() == at,
            forall|i: int| 0 <= i < at ==> #[trigger] places@[i] is None,
        decreases count - at,
    {
        places.push(None);
        at += 1;
    }
    places
}

/// The layout of a graph that runs in a given order.
spec fn graph_layout(graph: CompileNodes<'_>, order: Seq<NodeHandle>) -> Layout {
    Layout { nodes: graph.views(), outputs: graph.outputs@, order }
}

impl Allocation {
    /// The slots of all nodes are held.
    spec fn complete(self, layout: Layout) -> bool {
        &&& layout.wf()
        &&& layout.order == self.order@
        &&& holds_positions(
            self.position_slots_2@,
            layout,
            GraphDimension::D2,
            layout.order.len() as int,
        )
        &&& holds_positions(
            self.position_slots_3@,
            layout,
            GraphDimension::D3,
            layout.order.len() as int,
        )
        &&& holds_fields(self.scalar_slots@, layout, layout.order.len() as int)
    }
}

/// Pushes the buffers of the slots of a position.
fn push_position_buffers<const N: usize>(
    buffers: &mut Vec<BufferSpec>,
    slots: &PositionSlots<N>,
    dimension: GraphDimension,
    first: u16,
)
    requires
        first >= SLOT_DYNAMIC_START,
        first + N <= u16::MAX,
        forall|i: int|
            0 <= i < N ==> #[trigger] slots.coords@[i] == BufferSlot((first + i) as u16),
        holds_buffers(old(buffers)@, dimension, first - SLOT_DYNAMIC_START),
    ensures
        holds_buffers(final(buffers)@, dimension, first - SLOT_DYNAMIC_START + N),
{
    let mut i: usize = 0;
    while i < N
        invariant
            i <= N,
            first >= SLOT_DYNAMIC_START,
            first + N <= u16::MAX,
            forall|i: int|
                0 <= i < N ==> #[trigger] slots.coords@[i] == BufferSlot((first + i) as u16),
            holds_buffers(buffers@, dimension, first - SLOT_DYNAMIC_START + i),
        decreases N - i,
    {
        let slot = slots.coords[i];
        assert(slot == slots.coords@[i as int]);
        proof {
            lemma_buffer_joins(buffers@, dimension, first - SLOT_DYNAMIC_START + i);
            assert(SLOT_DYNAMIC_START + (first - SLOT_DYNAMIC_START + i) == first + i);
        }
        buffers.push(dynamic_f32_buffer(slot));
        i += 1;
    }
}

/// Hands out slots to the nodes, in the order in which they run.
fn allocate(graph: &CompileNodes<'_>, order: Vec<NodeHandle>, dimension: GraphDimension) -> (held:
    Allocation)
    requires
        graph_layout(*graph, order@).wf(),
        SLOT_DYNAMIC_START + graph_layout(*graph, order@).slots_before(order@.len() as int)
            <= u16::MAX,
    ensures
        held.order == order,
        held.complete(graph_layout(*graph, order@)),
        held.buffers@ == fixed_buffers(dimension) + graph_layout(*graph, order@).node_buffers(
            order@.len() as int,
        ),
{
    let ghost layout = graph_layout(*graph, order@);
    let mut next_slot: u16 = SLOT_DYNAMIC_START;
    let mut position_slots_2 = empty_places::<PositionSlots<2>>(graph.len());
    let mut position_slots_3 = empty_places::<PositionSlots<3>>(graph.len());
    let mut scalar_slots = empty_places::<BufferSlot>(graph.len());
    let mut buffers = start_buffers(dimension);
    proof {
        assert forall|h: int| 0 <= h < layout.nodes.len() implies #[trigger] turn(layout, h) >= 0 by {
            assert(layout.order.contains(NodeHandle(h as usize)));
        }
        assert(holds_positions(position_slots_2@, layout, GraphDimension::D2, 0));
        assert(holds_positions(position_slots_3@, layout, GraphDimension::D3, 0));
        assert(holds_fields(scalar_slots@, layout, 0));
        assert(buffers@ =~= fixed_buffers(dimension) + Seq::new(
            0,
            |k: int| f32_buffer(BufferSlot((SLOT_DYNAMIC_START + k) as u16)),
        ));
    }
    let mut at: usize = 0;
    while at < order.len()
        invariant
            at <= order@.len(),
            layout == graph_layout(*graph, order@),
            layout.wf(),
            SLOT_DYNAMIC_START + layout.slots_before(order@.len() as int) <= u16::MAX,
            next_slot == SLOT_DYNAMIC_START + layout.slots_before(at as int),
            holds_positions(position_slots_2@, layout, GraphDimension::D2, at as int),
            holds_positions(position_slots_3@, layout, GraphDimension::D3, at as int),
            holds_fields(scalar_slots@, layout, at as int),
            holds_buffers(buffers@, dimension, next_slot - SLOT_DYNAMIC_START),
        decreases order@.len() - at,
    {
        let handle = order[at];
        let ghost width = output_width(layout.outputs[handle.0 as int]);
        let first = next_slot;
        proof {
            lemma_turns(layout, at as int);
            layout.lemma_slots_grow(at as int, order@.len() as int);
            assert(handle == layout.order[at as int]);
        }
        match graph.output(handle) {
            OutputKind::Position(GraphDimension::D2) => {
                let slots = allocate_position_slots::<2>(&mut next_slot);
                proof {
                    assert(slots.coords@ =~= layout.node_slots(handle));
                    lemma_positions_join(
                        position_slots_2@,
                        layout,
                        GraphDimension::D2,
                        at as int,
                        slots,
                    );
                    lemma_positions_go_on(position_slots_3@, layout, GraphDimension::D3, at as int);
                    lemma_fields_go_on(scalar_slots@, layout, at as int);
                }
                position_slots_2[handle.index()] = Some(slots);
                push_position_buffers(&mut buffers, &slots, dimension, first);
            },
            OutputKind::Position(GraphDimension::D3) => {
                let slots = allocate_position_slots::<3>(&mut next_slot);
                proof {
                    assert(slots.coords@ =~= layout.node_slots(handle));
                    lemma_positions_join(
                        position_slots_3@,
                        layout,
                        GraphDimension::D3,
                        at as int,
                        slots,
                    );
                    lemma_positions_go_on(position_slots_2@, layout, GraphDimension::D2, at as int);
                    lemma_fields_go_on(scalar_slots@, layout, at as int);
                }
                position_slots_3[handle.index()] = Some(slots);
                push_position_buffers(&mut buffers, &slots, dimension, first);
            },
            OutputKind::Scalar(_) => {
                let slot = allocate_slot(&mut next_slot);
                proof {
                    assert(slot == layout.node_slots(handle)[0]);
                    lemma_fields_join(scalar_slots@, layout, at as int, slot);
                    lemma_positions_go_on(position_slots_2@, layout, GraphDimension::D2, at as int);
                    lemma_positions_go_on(position_slots_3@, layout, GraphDimension::D3, at as int);
                    lemma_buffer_joins(buffers@, dimension, first - SLOT_DYNAMIC_START);
                }
                scalar_slots[handle.index()] = Some(slot);
                buffers.push(dynamic_f32_buffer(slot));
            },
        }
        at += 1;
    }
    Allocation { order, position_slots_2, position_slots_3, scalar_slots, buffers }
}

/// The slots of a list of fields are refused for the first of them that is.
proof fn lemma_field_refusal_stays(layout: Layout, ids: Seq<Seq<char>>, k: int)
    requires
        0 <= k <= ids.len(),
        layout.field_slots(ids.take(k)) is Err,
    ensures
        layout.field_slots(ids) == layout.field_slots(ids.take(k)),
    decreases ids.len(),
{
    if k == ids.len() {
        assert(ids.take(k) =~= ids);
    } else {
        assert(ids.drop_last().take(k) =~= ids.take(k));
        lemma_field_refusal_stays(layout, ids.drop_last(), k);
    }
}

/// Every node has run in the end.
proof fn lemma_all_turns(layout: Layout)
    requires
        layout.wf(),
    ensures
        forall|h: int|
            0 <= h < layout.nodes.len() ==> #[trigger] turn(layout, h) < layout.order.len(),
{
    assert forall|h: int| 0 <= h < layout.nodes.len() implies #[trigger] turn(layout, h)
        < layout.order.len() by {
        assert(layout.order.contains(NodeHandle(h as usize)));
    }
}

/// What complete slots hold for a node.
proof fn lemma_held(held: Allocation, layout: Layout, handle: NodeHandle)
    requires
        held.complete(layout),
        handle.0 < layout.nodes.len(),
    ensures
        match held.position_slots_2@[handle.0 as int] {
            Some(slots) => layout.position_slots(handle, GraphDimension::D2) == Ok::<
                Seq<BufferSlot>,
                ErrorView,
            >(slots.coords@),
            None => layout.position_slots(handle, GraphDimension::D2) == Err::<
                Seq<BufferSlot>,
                ErrorView,
            >(ErrorView::InvalidSpec("missing position slots"@)),
        },
        match held.position_slots_3@[handle.0 as int] {
            Some(slots) => layout.position_slots(handle, GraphDimension::D3) == Ok::<
                Seq<BufferSlot>,
                ErrorView,
            >(slots.coords@),
            None => layout.position_slots(handle, GraphDimension::D3) == Err::<
                Seq<BufferSlot>,
                ErrorView,
            >(ErrorView::InvalidSpec("missing position slots"@)),
        },
        match held.scalar_slots@[handle.0 as int] {
            Some(slot) => layout.scalar_slot(handle) == Ok::<BufferSlot, ErrorView>(slot),
            None => layout.scalar_slot(handle) == Err::<BufferSlot, ErrorView>(
                ErrorView::InvalidSpec("missing scalar slot"@),
            ),
        },
{
    lemma_all_turns(layout);
    assert(turn(layout, handle.0 as int) < layout.order.len());
    assert(NodeHandle(handle.0 as int as usize) == handle);
    let h = handle.0 as int;
    assert(held.position_slots_2@[h] == held.position_slots_2@[h]);
}

/// The slots of the fields with the given names.
fn field_inputs(graph: &CompileNodes<'_>, held: &Allocation, names: &Vec<String>) -> (slots:
    FastNoiseResult<Vec<BufferSlot>>)
    requires
        graph.wf(),
        held.complete(graph_layout(*graph, held.order@)),
    ensures
        outcome(slots) == graph_layout(*graph, held.order@).field_slots(texts(names@)),
{
    let ghost layout = graph_layout(*graph, held.order@);
    let ghost ids = texts(names@);
    let mut inputs: Vec<BufferSlot> = Vec::new();
    let mut at: usize = 0;
    while at < names.len()
        invariant
            graph.wf(),
            layout == graph_layout(*graph, held.order@),
            held.complete(layout),
            at <= names@.len(),
            ids == texts(names@),
            layout.field_slots(ids.take(at as int)) == Ok::<Seq<BufferSlot>, ErrorView>(inputs@),
        decreases names@.len() - at,
    {
        assert(ids.take(at + 1).drop_last() =~= ids.take(at as int));
        assert(ids.take(at + 1).last() == names@[at as int]@);
        let found = resolve_node(graph, names[at].as_str());
        if let Err(error) = found {
            proof {
                lemma_field_refusal_stays(layout, ids, at + 1);
            }
            return Err(error);
        }
        let handle = found?;
        proof {
            lemma_held(*held, layout, handle);
        }
        match expect_scalar_slot(held.scalar_slots.as_slice(), handle) {
            Ok(slot) => {
                inputs.push(slot);
            },
            Err(error) => {
                proof {
                    lemma_field_refusal_stays(layout, ids, at + 1);
                }
                return Err(error);
            },
        }
        at += 1;
    }
    assert(ids.take(at as int) =~= ids);
    Ok(inputs)
}

/// The slots of the positions that a node in the plane reads.
fn source_slots_2(graph: &CompileNodes<'_>, held: &Allocation, source: &PositionSource) -> (slots:
    FastNoiseResult<PositionSlots<2>>)
    requires
        graph.wf(),
        held.complete(graph_layout(*graph, held.order@)),
    ensures
        match slots {
            Ok(slots) => graph_layout(*graph, held.order@).source_slots(source@, GraphDimension::D2)
                == Ok::<Seq<BufferSlot>, ErrorView>(slots.coords@),
            Err(error) => graph_layout(*graph, held.order@).source_slots(
                source@,
                GraphDimension::D2,
            ) == Err::<Seq<BufferSlot>, ErrorView>(error@),
        },
{
    proof {
        if let SourceView::Node(id) = source@ {
            if has_node(graph.views(), id) {
                lemma_place_in_range(graph.views(), id);
                lemma_held(
                    *held,
                    graph_layout(*graph, held.order@),
                    NodeHandle(place_of(graph.views(), id) as usize),
                );
            }
        }
    }
    resolve_position_source(
        source,
        graph,
        held.position_slots_2.as_slice(),
        base_position_slots_2(),
    )
}

/// The slots of the positions that a node in space reads.
fn source_slots_3(graph: &CompileNodes<'_>, held: &Allocation, source: &PositionSource) -> (slots:
    FastNoiseResult<PositionSlots<3>>)
    requires
        graph.wf(),
        held.complete(graph_layout(*graph, held.order@)),
    ensures
        match slots {
            Ok(slots) => graph_layout(*graph, held.order@).source_slots(source@, GraphDimension::D3)
                == Ok::<Seq<BufferSlot>, ErrorView>(slots.coords@),
            Err(error) => graph_layout(*graph, held.order@).source_slots(
                source@,
                GraphDimension::D3,
            ) == Err::<Seq<BufferSlot>, ErrorView>(error@),
        },
{
    proof {
        if let SourceView::Node(id) = source@ {
            if has_node(graph.views(), id) {
                lemma_place_in_range(graph.views(), id);
                lemma_held(
                    *held,
                    graph_layout(*graph, held.order@),
                    NodeHandle(place_of(graph.views(), id) as usize),
                );
            }
        }
    }
    resolve_position_source(
        source,
        graph,
        held.position_slots_3.as_slice(),
        base_position_slots_3(),
    )
}

/// The kernel of a node.
fn node_kernel(
    graph: &CompileNodes<'_>,
    held: &Allocation,
    handle: NodeHandle,
    scratch: &mut PlannerScratch,
) -> (kernel: FastNoiseResult<KernelSpec>)
    requires
        graph.wf(),
        held.complete(graph_layout(*graph, held.order@)),
        handle.0 < graph.views().len(),
    ensures
        outcome(kernel) == graph_layout(*graph, held.order@).kernel(handle),
        kernel is Ok ==> final(scratch).bytes@.len() == 0,
        kernel is Err ==> final(scratch).bytes@ == old(scratch).bytes@,
{
    proof {
        lemma_held(*held, graph_layout(*graph, held.order@), handle);
    }
    match graph.node(handle) {
        NodeSpec::Warp2D(node) => WarpPayload::<2> {
            source: source_slots_2(graph, held, &node.source)?,
            output: expect_position_slots(held.position_slots_2.as_slice(), handle)?,
            noise: node.noise,
        }.encode(scratch),
        NodeSpec::Warp3D(node) => WarpPayload::<3> {
            source: source_slots_3(graph, held, &node.source)?,
            output: expect_position_slots(held.position_slots_3.as_slice(), handle)?,
            noise: node.noise,
        }.encode(scratch),
        NodeSpec::Sample2D(node) => SamplePayload::<2> {
            source: source_slots_2(graph, held, &node.source)?,
            output: expect_scalar_slot(held.scalar_slots.as_slice(), handle)?,
            noise: node.noise,
        }.encode(scratch),
        NodeSpec::Sample3D(node) => SamplePayload::<3> {
            source: source_slots_3(graph, held, &node.source)?,
            output: expect_scalar_slot(held.scalar_slots.as_slice(), handle)?,
            noise: node.noise,
        }.encode(scratch),
        NodeSpec::Combine(node) => {
            validate_combine_contract(node.op, node.inputs.len(), node.params.len())?;
            let inputs = field_inputs(graph, held, &node.inputs)?;
            CombinePayload {
                op: node.op,
                inputs,
                output: expect_scalar_slot(held.scalar_slots.as_slice(), handle)?,
                params: copy_bits(&node.params),
            }.encode(scratch)
        },
    }
}

/// The stage of a single kernel.
fn single_stage(kernel: KernelSpec) -> (stage: StageSpec)
    ensures
        stage@ == seq![kernel@],
{
    let mut kernels: Vec<KernelSpec> = Vec::new();
    kernels.push(kernel);
    let stage = StageSpec { kernels };
    assert(stage@ =~= seq![kernel@]);
    stage
}

/// The stage that lays out the grids of the queries.
fn init_stage(dimension: GraphDimension) -> (stage: StageSpec)
    ensures
        stage@ == seq![init_kernel_view(dimension)],
{
    let kernel = match dimension {
        GraphDimension::D2 => FastNoiseKernel::InitGrid2d,
        GraphDimension::D3 => FastNoiseKernel::InitGrid3d,
    };
    let mut bindings: Vec<BufferBinding> = Vec::new();
    bindings.push(
        BufferBinding { slot: BufferSlot(SLOT_QUERY_META), access: BufferAccess::Read },
    );
    bindings.push(BufferBinding { slot: BufferSlot(SLOT_QUERY_F32), access: BufferAccess::Read });
    bindings.push(
        BufferBinding { slot: BufferSlot(SLOT_QUERY_OFFSETS), access: BufferAccess::Read },
    );
    let payload: Vec<u8> = Vec::new();
    let kernel = KernelSpec {
        kind_id: kernel.kind(),
        payload,
        bindings,
        dispatch: DispatchHint::WholeBatch,
    };
    assert(kernel@.payload =~= init_kernel_view(dimension).payload);
    assert(kernel@.bindings =~= init_kernel_view(dimension).bindings);
    single_stage(kernel)
}

/// The stages of a plan are refused for the first of them that is.
proof fn lemma_stage_refusal_stays(layout: Layout, dimension: GraphDimension, few: int, all: int)
    requires
        0 <= few <= all,
        layout.stages(dimension, few) is Err,
    ensures
        layout.stages(dimension, all) == layout.stages(dimension, few),
    decreases all,
{
    if few < all {
        lemma_stage_refusal_stays(layout, dimension, few, all - 1);
    }
}

/// Stages, each by its view.
spec fn stage_views(stages: Seq<StageSpec>) -> Seq<Seq<KernelView>> {
    stages.map_values(|stage: StageSpec| stage@)
}

/// The stages of a plan.
fn build_stages(
    graph: &CompileNodes<'_>,
    held: &Allocation,
    dimension: GraphDimension,
    scratch: &mut PlannerScratch,
) -> (stages: FastNoiseResult<Vec<StageSpec>>)
    requires
        graph.wf(),
        held.complete(graph_layout(*graph, held.order@)),
    ensures
        match stages {
            Ok(stages) => graph_layout(*graph, held.order@).stages(
                dimension,
                held.order@.len() as int,
            ) == Ok::<Seq<Seq<KernelView>>, ErrorView>(stage_views(stages@)),
            Err(error) => graph_layout(*graph, held.order@).stages(
                dimension,
                held.order@.len() as int,
            ) == Err::<Seq<Seq<KernelView>>, ErrorView>(error@),
        },
        graph_layout(*graph, held.order@).writes_payloads() ==> final(scratch).bytes@.len() == 0,
        !graph_layout(*graph, held.order@).writes_payloads() ==> final(scratch).bytes@ == old(
            scratch,
        ).bytes@,
{
    let ghost layout = graph_layout(*graph, held.order@);
    let mut stages: Vec<StageSpec> = Vec::new();
    stages.push(init_stage(dimension));
    assert(stage_views(stages@) =~= seq![seq![init_kernel_view(dimension)]]);
    let mut at: usize = 0;
    while at < held.order.len()
        invariant
            at <= held.order@.len(),
            graph.wf(),
            layout == graph_layout(*graph, held.order@),
            held.complete(layout),
            layout.stages(dimension, at as int) == Ok::<Seq<Seq<KernelView>>, ErrorView>(
                stage_views(stages@),
            ),
            at == 0 ==> scratch.bytes@ == old(scratch).bytes@,
            at > 0 ==> layout.writes_payloads() && scratch.bytes@.len() == 0,
        decreases held.order@.len() - at,
    {
        assert(layout.order[at as int].0 < layout.nodes.len());
        match node_kernel(graph, held, held.order[at], scratch) {
            Ok(kernel) => {
                let ghost before = stage_views(stages@);
                stages.push(single_stage(kernel));
                assert(stage_views(stages@) =~= before.push(seq![kernel@]));
            },
            Err(error) => {
                proof {
                    lemma_stage_refusal_stays(
                        layout,
                        dimension,
                        at + 1,
                        held.order@.len() as int,
                    );
                }
                return Err(error);
            },
        }
        at += 1;
    }
    Ok(stages)
}

/// Tells whether the slots that a graph needs can be numbered.
fn slots_suffice(state: &FastNoiseState) -> (suffice: bool)
    ensures
        suffice == slots_fit(state@),
{
    let ghost outputs = outputs_of(state@.nodes, state@.dimension);
    let count = state.node_count();
    let mut next_slot: u32 = SLOT_DYNAMIC_START as u32;
    let mut at: usize = 0;
    assert(outputs.take(0) =~= Seq::empty());
    while at < count
        invariant
            at <= count,
            count == state@.nodes.len(),
            outputs == outputs_of(state@.nodes, state@.dimension),
            next_slot == SLOT_DYNAMIC_START + total_width(outputs.take(at as int)),
            next_slot <= u16::MAX,
        decreases count - at,
    {
        assert(outputs.take(at + 1).drop_last() =~= outputs.take(at as int));
        let width: u32 = match state.node_at(at).output_kind(state.dimension()) {
            OutputKind::Position(GraphDimension::D2) => 2,
            OutputKind::Position(GraphDimension::D3) => 3,
            OutputKind::Scalar(_) => 1,
        };
        next_slot = next_slot + width;
        if next_slot > u16::MAX as u32 {
            proof {
                lemma_total_width_grows(outputs, at + 1);
            }
            return false;
        }
        at += 1;
    }
    assert(outputs.take(at as int) =~= outputs);
    true
}

/// The node whose field is asked for, and the order in which the nodes run.
fn arrange(state: &FastNoiseState, graph: &CompileNodes<'_>) -> (arranged: FastNoiseResult<
    (NodeHandle, Vec<NodeHandle>),
>)
    requires
        graph.wf(),
        graph.views() == state@.nodes,
    ensures
        match arranged {
            Ok((target, order)) => {
                &&& graph_refusal(state@) is None
                &&& handle_of(state@.nodes, state@.final_field) == Ok::<NodeHandle, ErrorView>(
                    target,
                )
                &&& target.0 < state@.nodes.len()
                &&& order@ == layout_of(state@).order
                &&& lists_each_once(state@.nodes.len(), order@)
            },
            Err(error) => graph_refusal(state@) == Some(error@),
        },
{
    let deps = dependencies(graph)?;
    let target = resolve_node(graph, state.final_field().as_str())?;
    match schedule(&deps) {
        Some(order) => {
            proof {
                assert(is_acyclic(edges(deps@)));
                assert(is_schedule(edges(deps@), schedule_of(edges(deps@))));
                law_schedule_is_unique(edges(deps@), order@, schedule_of(edges(deps@)));
            }
            Ok((target, order))
        },
        None => Err(invalid_spec("cycle detected in fastnoise graph")),
    }
}

/// Tells whether a graph may be compiled: it is refused before slots are handed
/// out, or they can be numbered.
pub fn may_compile(state: &FastNoiseState) -> (may: bool)
    requires
        state.wf(),
    ensures
        may == (graph_refusal(state@) is None ==> slots_fit(state@)),
{
    if slots_suffice(state) {
        return true;
    }
    match CompileNodes::build(state) {
        Ok(graph) => arrange(state, &graph).is_err(),
        Err(_) => true,
    }
}

/// Compiles a graph. Its nodes run one after another, each after those that it
/// reads, and write to slots of their own.
pub fn compile_graph(state: &FastNoiseState, scratch: &mut PlannerScratch) -> (plan:
    FastNoiseResult<CompiledPlan>)
    requires
        state.wf(),
        graph_refusal(state@) is None ==> slots_fit(state@),
    ensures
        outcome(plan) == compiled(state@),
        plan is Ok ==> final(scratch).bytes@.len() == 0,
        writes_payloads(state@) ==> final(scratch).bytes@.len() == 0,
        !writes_payloads(state@) ==> final(scratch).bytes@ == old(scratch).bytes@,
{
    let graph = CompileNodes::build(state)?;
    assert(graph.outputs@ =~= outputs_of(state@.nodes, state@.dimension));
    let (target, order) = arrange(state, &graph)?;
    let ghost layout = graph_layout(graph, order@);
    proof {
        assert(layout == layout_of(state@));
        layout.lemma_slots_in_all();
    }
    let held = allocate(&graph, order, state.dimension());
    let stages = build_stages(&graph, &held, state.dimension(), scratch)?;
    proof {
        lemma_held(held, layout, target);
        assert(layout.order.contains(target));
        if !layout.writes_payloads() {
            assert(layout.stages(state@.dimension, 1) is Err);
            lemma_stage_refusal_stays(
                layout,
                state@.dimension,
                1,
                layout.order.len() as int,
            );
        }
    }
    let final_slot = expect_scalar_slot(held.scalar_slots.as_slice(), target)?;
    Ok(
        CompiledPlan {
            pipeline: PipelineShape { buffers: held.buffers, stages },
            static_buffers: Vec::new(),
            planner_meta: FastNoisePlannerMeta { dimension: state.dimension(), final_slot },
        },
    )
}

} // verus!

//! Graphs of noise nodes, queries on them, and the plans that they compile to.

use vstd::prelude::*;

use crate::noise::{CombineOp, F32Bits, FastNoiseLite};

verus! {

/// A buffer of a batch.
#[derive(Clone, Copy, Debug, PartialEq, Eq, Structural)]
pub struct BufferSlot(pub u16);

/// Width, height and depth of each query.
pub const SLOT_QUERY_META: u16 = 0;

/// Origin and step of each query.
pub const SLOT_QUERY_F32: u16 = 1;

/// Where the samples of each query begin, and where the last ones end.
pub const SLOT_QUERY_OFFSETS: u16 = 2;

/// Positions of the samples on the grid of their query, by coordinate.
pub const SLOT_BASE_X: u16 = 3;

pub const SLOT_BASE_Y: u16 = 4;

pub const SLOT_BASE_Z: u16 = 5;

/// The first slot that a plan hands out to nodes.
pub const SLOT_DYNAMIC_START: u16 = 6;

#[derive(Clone, Copy, Debug, PartialEq, Eq, Structural)]
pub enum GraphDimension {
    D2,
    D3,
}

impl GraphDimension {
    /// How many coordinates a position has.
    pub open spec fn coordinates(self) -> nat {
        match self {
            GraphDimension::D2 => 2,
            GraphDimension::D3 => 3,
        }
    }
}

/// What a node produces.
#[derive(Clone, Copy, Debug, PartialEq, Eq, Structural)]
pub enum OutputKind {
    Position(GraphDimension),
    Scalar(GraphDimension),
}

/// One buffer per coordinate of a position.
#[derive(Clone, Copy, Debug, PartialEq, Eq)]
pub struct PositionSlots<const N: usize> {
    pub coords: [BufferSlot; N],
}

/// Where a node takes positions from: the grid of the query, or another node.
#[derive(Debug, PartialEq, Eq)]
pub enum PositionSource {
    Base,
    Node(String),
}

/// A node that moves positions.
#[derive(Debug, PartialEq, Eq)]
pub struct WarpNode {
    pub id: String,
    pub source: PositionSource,
    pub noise: FastNoiseLite,
}

/// A node that samples noise at positions.
#[derive(Debug, PartialEq, Eq)]
pub struct SampleNode {
    pub id: String,
    pub source: PositionSource,
    pub noise: FastNoiseLite,
}

/// A node that computes a field from other fields.
#[derive(Debug, PartialEq, Eq)]
pub struct CombineNode {
    pub id: String,
    pub op: CombineOp,
    pub inputs: Vec<String>,
    pub params: Vec<F32Bits>,
}

#[derive(Debug, PartialEq, Eq)]
pub enum NodeSpec {
    Warp2D(WarpNode),
    Warp3D(WarpNode),
    Sample2D(SampleNode),
    Sample3D(SampleNode),
    Combine(CombineNode),
}

/// The value of a [`PositionSource`].
pub enum SourceView {
    Base,
    Node(Seq<char>),
}

/// The value of a [`NodeSpec`].
pub enum NodeView {
    Warp { dimension: GraphDimension, id: Seq<char>, source: SourceView, noise: FastNoiseLite },
    Sample { dimension: GraphDimension, id: Seq<char>, source: SourceView, noise: FastNoiseLite },
    Combine { id: Seq<char>, op: CombineOp, inputs: Seq<Seq<char>>, params: Seq<F32Bits> },
}

/// A list of texts, each by its characters.
pub open spec fn texts(list: Seq<String>) -> Seq<Seq<char>> {
    list.map_values(|text: String| text@)
}

impl View for PositionSource {
    type V = SourceView;

    open spec fn view(&self) -> SourceView {
        match *self {
            PositionSource::Base => SourceView::Base,
            PositionSource::Node(id) => SourceView::Node(id@),
        }
    }
}

impl View for NodeSpec {
    type V = NodeView;

    open spec fn view(&self) -> NodeView {
        match *self {
            NodeSpec::Warp2D(node) => NodeView::Warp {
                dimension: GraphDimension::D2,
                id: node.id@,
                source: node.source@,
                noise: node.noise,
            },
            NodeSpec::Warp3D(node) => NodeView::Warp {
                dimension: GraphDimension::D3,
                id: node.id@,
                source: node.source@,
                noise: node.noise,
            },
            NodeSpec::Sample2D(node) => NodeView::Sample {
                dimension: GraphDimension::D2,
                id: node.id@,
                source: node.source@,
                noise: node.noise,
            },
            NodeSpec::Sample3D(node) => NodeView::Sample {
                dimension: GraphDimension::D3,
                id: node.id@,
                source: node.source@,
                noise: node.noise,
            },
            NodeSpec::Combine(node) => NodeView::Combine {
                id: node.id@,
                op: node.op,
                inputs: texts(node.inputs@),
                params: node.params@,
            },
        }
    }
}

impl NodeView {
    pub open spec fn id(self) -> Seq<char> {
        match self {
            NodeView::Warp { id, .. } => id,
            NodeView::Sample { id, .. } => id,
            NodeView::Combine { id, .. } => id,
        }
    }

    /// What the node produces in a graph of dimension `dimension`.
    pub open spec fn output_kind(self, dimension: GraphDimension) -> OutputKind {
        match self {
            NodeView::Warp { dimension: own, .. } => OutputKind::Position(own),
            NodeView::Sample { dimension: own, .. } => OutputKind::Scalar(own),
            NodeView::Combine { .. } => OutputKind::Scalar(dimension),
        }
    }

    /// The names of the nodes that the node reads, in order.
    pub open spec fn reads(self) -> Seq<Seq<char>> {
        match self {
            NodeView::Warp { source: SourceView::Node(id), .. } => seq![id],
            NodeView::Sample { source: SourceView::Node(id), .. } => seq![id],
            NodeView::Combine { inputs, .. } => inputs,
            _ => seq![],
        }
    }
}

impl Clone for PositionSource {
    fn clone(&self) -> (copy: Self)
        ensures
            copy@ == self@,
    {
        match self {
            PositionSource::Base => PositionSource::Base,
            PositionSource::Node(id) => PositionSource::Node(id.clone()),
        }
    }
}

/// A copy of a list of texts.
fn copy_texts(list: &Vec<String>) -> (copy: Vec<String>)
    ensures
        texts(copy@) == texts(list@),
{
    let mut copy: Vec<String> = Vec::new();
    let mut at: usize = 0;
    while at < list.len()
        invariant
            at <= list@.len(),
            copy@.len() == at,
            forall|i: int| 0 <= i < at ==> (#[trigger] copy@[i])@ == list@[i]@,
        decreases list@.len() - at,
    {
        copy.push(list[at].clone());
        at += 1;
    }
    assert(texts(copy@) =~= texts(list@));
    copy
}

/// A copy of a list of numbers.
pub fn copy_bits(list: &Vec<F32Bits>) -> (copy: Vec<F32Bits>)
    ensures
        copy@ == list@,
{
    let mut copy: Vec<F32Bits> = Vec::new();
    let mut at: usize = 0;
    while at < list.len()
        invariant
            at <= list@.len(),
            copy@ == list@.take(at as int),
        decreases list@.len() - at,
    {
        copy.push(list[at]);
        at += 1;
        assert(list@.take(at as int) =~= list@.take(at - 1).push(list@[at - 1]));
    }
    assert(list@.take(at as int) =~= list@);
    copy
}

impl Clone for NodeSpec {
    fn clone(&self) -> (copy: Self)
        ensures
            copy@ == self@,
    {
        match self {
            NodeSpec::Warp2D(node) => NodeSpec::Warp2D(
                WarpNode {
                    id: node.id.clone(),
                    source: node.source.clone(),
                    noise: node.noise,
                },
            ),
            NodeSpec::Warp3D(node) => NodeSpec::Warp3D(
                WarpNode {
                    id: node.id.clone(),
                    source: node.source.clone(),
                    noise: node.noise,
                },
            ),
            NodeSpec::Sample2D(node) => NodeSpec::Sample2D(
                SampleNode {
                    id: node.id.clone(),
                    source: node.source.clone(),
                    noise: node.noise,
                },
            ),
            NodeSpec::Sample3D(node) => NodeSpec::Sample3D(
                SampleNode {
                    id: node.id.clone(),
                    source: node.source.clone(),
                    noise: node.noise,
                },
            ),
            NodeSpec::Combine(node) => NodeSpec::Combine(
                CombineNode {
                    id: node.id.clone(),
                    op: node.op,
                    inputs: copy_texts(&node.inputs),
                    params: copy_bits(&node.params),
                },
            ),
        }
    }
}

impl NodeSpec {
    pub fn id(&self) -> (id: &String)
        ensures
            id@ == self@.id(),
    {
        match self {
            NodeSpec::Warp2D(node) => &node.id,
            NodeSpec::Warp3D(node) => &node.id,
            NodeSpec::Sample2D(node) => &node.id,
            NodeSpec::Sample3D(node) => &node.id,
            NodeSpec::Combine(node) => &node.id,
        }
    }

    /// What the node produces in a graph of dimension `dimension`.
    pub fn output_kind(&self, dimension: GraphDimension) -> (kind: OutputKind)
        ensures
            kind == self@.output_kind(dimension),
    {
        match self {
            NodeSpec::Warp2D(_) => OutputKind::Position(GraphDimension::D2),
            NodeSpec::Warp3D(_) => OutputKind::Position(GraphDimension::D3),
            NodeSpec::Sample2D(_) => OutputKind::Scalar(GraphDimension::D2),
            NodeSpec::Sample3D(_) => OutputKind::Scalar(GraphDimension::D3),
            NodeSpec::Combine(_) => OutputKind::Scalar(dimension),
        }
    }
}

/// A graph: its nodes, and the node whose field is asked for.
#[derive(Debug, PartialEq, Eq)]
pub struct FastNoiseGraphSpec {
    pub dimension: GraphDimension,
    pub final_field: String,
    pub nodes: Vec<NodeSpec>,
}

/// A change to a graph.
#[derive(Debug, PartialEq, Eq)]
pub enum FastNoiseChange {
    UpsertNode(NodeSpec),
    RemoveNode { id: String },
    SetFinalField { id: String },
}

/// The value of a [`FastNoiseChange`].
pub enum ChangeView {
    UpsertNode(NodeView),
    RemoveNode(Seq<char>),
    SetFinalField(Seq<char>),
}

impl View for FastNoiseChange {
    type V = ChangeView;

    open spec fn view(&self) -> ChangeView {
        match *self {
            FastNoiseChange::UpsertNode(node) => ChangeView::UpsertNode(node@),
            FastNoiseChange::RemoveNode { id } => ChangeView::RemoveNode(id@),
            FastNoiseChange::SetFinalField { id } => ChangeView::SetFinalField(id@),
        }
    }
}

/// A block of samples that is asked for: a grid with its place in the field.
#[derive(Clone, Copy, Debug, PartialEq, Eq)]
#[allow(inconsistent_fields)]
pub enum ChunkQuery {
    Grid2D { width: usize, height: usize, origin: [F32Bits; 2], step: [F32Bits; 2] },
    Grid3D {
        width: usize,
        height: usize,
        depth: usize,
        origin: [F32Bits; 3],
        step: [F32Bits; 3],
    },
}

/// What is reported of a block of samples.
#[derive(Clone, Copy, Debug, PartialEq, Eq)]
pub struct ChunkSummary {
    pub samples: usize,
    pub min: F32Bits,
    pub max: F32Bits,
    pub mean: F32Bits,
    pub checksum: u64,
    pub taps: [F32Bits; 8],
}

/// The kernels that plans are made of.
#[derive(Clone, Copy, Debug, PartialEq, Eq, Structural)]
pub enum FastNoiseKernel {
    InitGrid2d,
    InitGrid3d,
    Warp2d,
    Warp3d,
    Sample2d,
    Sample3d,
    Combine,
}

/// The number under which a kernel is known to a backend.
pub open spec fn kind_of(kernel: FastNoiseKernel) -> u32 {
    match kernel {
        FastNoiseKernel::InitGrid2d => 0,
        FastNoiseKernel::InitGrid3d => 1,
        FastNoiseKernel::Warp2d => 2,
        FastNoiseKernel::Warp3d => 3,
        FastNoiseKernel::Sample2d => 4,
        FastNoiseKernel::Sample3d => 5,
        FastNoiseKernel::Combine => 6,
    }
}

/// The kernel that is known to a backend under a number.
pub open spec fn kernel_of(kind: u32) -> Option<FastNoiseKernel> {
    if kind == 0 {
        Some(FastNoiseKernel::InitGrid2d)
    } else if kind == 1 {
        Some(FastNoiseKernel::InitGrid3d)
    } else if kind == 2 {
        Some(FastNoiseKernel::Warp2d)
    } else if kind == 3 {
        Some(FastNoiseKernel::Warp3d)
    } else if kind == 4 {
        Some(FastNoiseKernel::Sample2d)
    } else if kind == 5 {
        Some(FastNoiseKernel::Sample3d)
    } else if kind == 6 {
        Some(FastNoiseKernel::Combine)
    } else {
        None
    }
}

/// A kernel and its number determine each other.
pub proof fn law_kinds_are_faithful()
    ensures
        forall|kernel: FastNoiseKernel| #[trigger] kernel_of(kind_of(kernel)) == Some(kernel),
        forall|kind: u32|
            (#[trigger] kernel_of(kind)) matches Some(kernel) ==> kind_of(kernel) == kind,
{
}

impl FastNoiseKernel {
    pub fn kind(self) -> (kind: u32)
        ensures
            kind == kind_of(self),
    {
        match self {
            FastNoiseKernel::InitGrid2d => 0,
            FastNoiseKernel::InitGrid3d => 1,
            FastNoiseKernel::Warp2d => 2,
            FastNoiseKernel::Warp3d => 3,
            FastNoiseKernel::Sample2d => 4,
            FastNoiseKernel::Sample3d => 5,
            FastNoiseKernel::Combine => 6,
        }
    }

    pub fn from_kind(kind: u32) -> (kernel: Option<FastNoiseKernel>)
        ensures
            kernel == kernel_of(kind),
    {
        if kind == 0 {
            Some(FastNoiseKernel::InitGrid2d)
        } else if kind == 1 {
            Some(FastNoiseKernel::InitGrid3d)
        } else if kind == 2 {
            Some(FastNoiseKernel::Warp2d)
        } else if kind == 3 {
            Some(FastNoiseKernel::Warp3d)
        } else if kind == 4 {
            Some(FastNoiseKernel::Sample2d)
        } else if kind == 5 {
            Some(FastNoiseKernel::Sample3d)
        } else if kind == 6 {
            Some(FastNoiseKernel::Combine)
        } else {
            None
        }
    }
}

#[derive(Clone, Copy, Debug, PartialEq, Eq, Structural)]
pub enum ElementKind {
    U32,
    F32,
}

/// How long a buffer is: as long as the batch asks for.
#[derive(Clone, Copy, Debug, PartialEq, Eq, Structural)]
pub enum BufferLayout {
    Dynamic,
}

/// A buffer that a plan needs.
#[derive(Clone, Copy, Debug, PartialEq, Eq, Structural)]
pub struct BufferSpec {
    pub slot: BufferSlot,
    pub element_kind: ElementKind,
    pub layout: BufferLayout,
}

#[derive(Clone, Copy, Debug, PartialEq, Eq, Structural)]
pub enum BufferAccess {
    Read,
}

/// A buffer that a kernel is known to use.
#[derive(Clone, Copy, Debug, PartialEq, Eq, Structural)]
pub struct BufferBinding {
    pub slot: BufferSlot,
    pub access: BufferAccess,
}

/// How a kernel is run: once over the whole batch.
#[derive(Clone, Copy, Debug, PartialEq, Eq, Structural)]
pub enum DispatchHint {
    WholeBatch,
}

/// A kernel of a plan, with its payload.
#[derive(Debug, PartialEq, Eq)]
pub struct KernelSpec {
    pub kind_id: u32,
    pub payload: Vec<u8>,
    pub bindings: Vec<BufferBinding>,
    pub dispatch: DispatchHint,
}

/// The value of a [`KernelSpec`].
pub struct KernelView {
    pub kind_id: u32,
    pub payload: Seq<u8>,
    pub bindings: Seq<BufferBinding>,
    pub dispatch: DispatchHint,
}

impl View for KernelSpec {
    type V = KernelView;

    open spec fn view(&self) -> KernelView {
        KernelView {
            kind_id: self.kind_id,
            payload: self.payload@,
            bindings: self.bindings@,
            dispatch: self.dispatch,
        }
    }
}

/// Kernels that run together; stages run one after another.
#[derive(Debug, PartialEq, Eq)]
pub struct StageSpec {
    pub kernels: Vec<KernelSpec>,
}

impl View for StageSpec {
    type V = Seq<KernelView>;

    open spec fn view(&self) -> Seq<KernelView> {
        self.kernels@.map_values(|kernel: KernelSpec| kernel@)
    }
}

/// The buffers and stages of a plan.
#[derive(Debug, PartialEq, Eq)]
pub struct PipelineShape {
    pub buffers: Vec<BufferSpec>,
    pub stages: Vec<StageSpec>,
}

/// A buffer whose contents are known when the plan is made.
#[derive(Debug, PartialEq, Eq)]
pub struct StaticBuffer {
    pub slot: BufferSlot,
    pub words: Vec<u32>,
}

/// What the planner has to know of a plan when it runs.
#[derive(Clone, Copy, Debug, PartialEq, Eq, Structural)]
pub struct FastNoisePlannerMeta {
    pub dimension: GraphDimension,
    pub final_slot: BufferSlot,
}

#[derive(Debug, PartialEq, Eq)]
pub struct CompiledPlan {
    pub pipeline: PipelineShape,
    pub static_buffers: Vec<StaticBuffer>,
    pub planner_meta: FastNoisePlannerMeta,
}

/// The value of a [`CompiledPlan`].
pub struct PlanView {
    pub buffers: Seq<BufferSpec>,
    pub stages: Seq<Seq<KernelView>>,
    pub static_buffers: Seq<StaticBuffer>,
    pub planner_meta: FastNoisePlannerMeta,
}

impl View for CompiledPlan {
    type V = PlanView;

    open spec fn view(&self) -> PlanView {
        PlanView {
            buffers: self.pipeline.buffers@,
            stages: self.pipeline.stages@.map_values(|stage: StageSpec| stage@),
            static_buffers: self.static_buffers@,
            planner_meta: self.planner_meta,
        }
    }
}

/// Kernels are numbered in the order in which they are listed, from zero.
pub proof fn law_kinds_are_numbered(kind: u32)
    ensures
        kind_of(FastNoiseKernel::InitGrid2d) == 0,
        kind_of(FastNoiseKernel::InitGrid3d) == 1,
        kind_of(FastNoiseKernel::Warp2d) == 2,
        kind_of(FastNoiseKernel::Warp3d) == 3,
        kind_of(FastNoiseKernel::Sample2d) == 4,
        kind_of(FastNoiseKernel::Sample3d) == 5,
        kind_of(FastNoiseKernel::Combine) == 6,
        kernel_of(kind) is Some <==> kind <= 6,
{
}

/// The value of a node tells all of it: nodes with the same value have the same
/// name, source, settings, operation, inputs and parameters.
pub proof fn law_node_values_tell_all(a: NodeSpec, b: NodeSpec)
    requires
        a@ == b@,
    ensures
        match (a, b) {
            (NodeSpec::Warp2D(a), NodeSpec::Warp2D(b)) => a.id@ == b.id@ && a.source@ == b.source@
                && a.noise == b.noise,
            (NodeSpec::Warp3D(a), NodeSpec::Warp3D(b)) => a.id@ == b.id@ && a.source@ == b.source@
                && a.noise == b.noise,
            (NodeSpec::Sample2D(a), NodeSpec::Sample2D(b)) => a.id@ == b.id@ && a.source@
                == b.source@ && a.noise == b.noise,
            (NodeSpec::Sample3D(a), NodeSpec::Sample3D(b)) => a.id@ == b.id@ && a.source@
                == b.source@ && a.noise == b.noise,
            (NodeSpec::Combine(a), NodeSpec::Combine(b)) => {
                &&& a.id@ == b.id@
                &&& a.op == b.op
                &&& a.inputs@.len() == b.inputs@.len()
                &&& forall|i: int|
                    0 <= i < a.inputs@.len() ==> (#[trigger] a.inputs@[i])@ == b.inputs@[i]@
                &&& a.params@ == b.params@
            },
            _ => false,
        },
{
    if let (NodeSpec::Combine(a), NodeSpec::Combine(b)) = (a, b) {
        assert(texts(a.inputs@).len() == texts(b.inputs@).len());
        assert forall|i: int| 0 <= i < a.inputs@.len() implies (#[trigger] a.inputs@[i])@
            == b.inputs@[i]@ by {
            assert(texts(a.inputs@)[i] == texts(b.inputs@)[i]);
        }
    }
}

/// The value of a node holds what the node does.
pub proof fn law_node_values_hold_the_node(node: NodeSpec)
    ensures
        match node {
            NodeSpec::Warp2D(warp) => node@ matches NodeView::Warp { dimension, id, source, noise }
                && dimension == GraphDimension::D2 && id == warp.id@ && source == warp.source@
                && noise == warp.noise,
            NodeSpec::Warp3D(warp) => node@ matches NodeView::Warp { dimension, id, source, noise }
                && dimension == GraphDimension::D3 && id == warp.id@ && source == warp.source@
                && noise == warp.noise,
            NodeSpec::Sample2D(sample) => node@ matches NodeView::Sample {
                dimension,
                id,
                source,
                noise,
            } && dimension == GraphDimension::D2 && id == sample.id@ && source == sample.source@
                && noise == sample.noise,
            NodeSpec::Sample3D(sample) => node@ matches NodeView::Sample {
                dimension,
                id,
                source,
                noise,
            } && dimension == GraphDimension::D3 && id == sample.id@ && source == sample.source@
                && noise == sample.noise,
            NodeSpec::Combine(mix) => node@ matches NodeView::Combine { id, op, inputs, params }
                && id == mix.id@ && op == mix.op && inputs.len() == mix.inputs@.len() && params
                == mix.params@ && forall|i: int|
                0 <= i < inputs.len() ==> #[trigger] inputs[i] == mix.inputs@[i]@,
        },
{
}

/// The value of a change holds what is changed.
pub proof fn law_change_values_hold_the_change(change: FastNoiseChange)
    ensures
        match change {
            FastNoiseChange::UpsertNode(node) => change@ == ChangeView::UpsertNode(node@),
            FastNoiseChange::RemoveNode { id } => change@ == ChangeView::RemoveNode(id@),
            FastNoiseChange::SetFinalField { id } => change@ == ChangeView::SetFinalField(id@),
        },
{
}

/// The value of a plan holds its buffers, its kernels stage by stage and what the
/// planner has to know.
pub proof fn law_plan_values_hold_the_plan(plan: CompiledPlan)
    ensures
        plan@.buffers == plan.pipeline.buffers@,
        plan@.static_buffers == plan.static_buffers@,
        plan@.planner_meta == plan.planner_meta,
        plan@.stages.len() == plan.pipeline.stages@.len(),
        forall|i: int|
            0 <= i < plan@.stages.len() ==> (#[trigger] plan@.stages[i]).len()
                == plan.pipeline.stages@[i].kernels@.len(),
        forall|i: int, j: int|
            0 <= i < plan@.stages.len() && 0 <= j < plan@.stages[i].len() ==> {
                let kernel = plan.pipeline.stages@[i].kernels@[j];
                &&& (#[trigger] plan@.stages[i][j]).kind_id == kernel.kind_id
                &&& plan@.stages[i][j].payload == kernel.payload@
                &&& plan@.stages[i][j].bindings == kernel.bindings@
                &&& plan@.stages[i][j].dispatch == kernel.dispatch
            },
{
}

/// Warps produce positions and samplings fields, both of their own dimension;
/// combinations produce fields of the dimension of the graph.
pub proof fn law_nodes_produce_positions_or_fields(node: NodeView, dimension: GraphDimension)
    ensures
        match node {
            NodeView::Warp { id, dimension: own, .. } => node.id() == id && node.output_kind(
                dimension,
            ) == OutputKind::Position(own),
            NodeView::Sample { id, dimension: own, .. } => node.id() == id && node.output_kind(
                dimension,
            ) == OutputKind::Scalar(own),
            NodeView::Combine { id, .. } => node.id() == id && node.output_kind(dimension)
                == OutputKind::Scalar(dimension),
        },
        GraphDimension::D2.coordinates() == 2,
        GraphDimension::D3.coordinates() == 3,
{
}

} // verus!

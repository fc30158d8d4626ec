//! The kernels of a backend: how they are made from a plan, and what they do
//! with the buffers of a batch.

use vstd::prelude::*;

use crate::combine::{arity_refusal, expect_input, expect_params, expect_two_inputs, one_input_refusal, op_name, param_arity, two_inputs_refusal, wrong_count};
use crate::error::{ErrorView, FastNoiseError, FastNoiseResult, outcome};
use crate::kernel_payload::{CombinePayload, KernelPayload, PayloadView, SamplePayload, WarpPayload, law_payload_is_written_back, lemma_refusal_is_invalid, payload_bytes, read_payload, takes};
use crate::model::{BufferSlot, FastNoiseKernel, GraphDimension, KernelSpec, KernelView, PositionSlots, SLOT_BASE_X, SLOT_BASE_Y, SLOT_BASE_Z, kernel_of};
use crate::layout::base_slots;
use crate::noise::{CombineOp, F32Bits, FastNoiseLite};
use crate::query::{total_samples, total_samples_from_offsets};
use crate::text::decimal;
use crate::walk::{GridWalk, Grids, SampleStep, SampleWalk, covers, evaluated, law_every_sample_is_computed, law_walk_covers_the_samples, sample_steps};

verus! {

/// Kernels in the plane look for a cancellation after every so many samples.
pub const CANCEL_CHECK_EVERY_2D: usize = 4096;

/// Kernels in space look for a cancellation after every so many samples.
pub const CANCEL_CHECK_EVERY_3D: usize = 2048;

/// Lays out the grids of the queries.
#[derive(Clone, Copy, Debug, PartialEq, Eq, Structural)]
pub struct GridInitKernel {
    pub dimension: GraphDimension,
}

/// Moves positions.
#[derive(Clone, Copy, Debug, PartialEq, Eq)]
pub struct WarpKernel<const N: usize> {
    pub source: PositionSlots<N>,
    pub output: PositionSlots<N>,
    pub noise: FastNoiseLite,
}

/// Samples noise at positions.
#[derive(Clone, Copy, Debug, PartialEq, Eq)]
pub struct SampleKernel<const N: usize> {
    pub source: PositionSlots<N>,
    pub output: BufferSlot,
    pub noise: FastNoiseLite,
}

/// Computes a field from other fields.
#[derive(Debug, PartialEq, Eq)]
pub struct CombineKernel {
    pub op: CombineOp,
    pub inputs: Vec<BufferSlot>,
    pub output: BufferSlot,
    pub params: Vec<F32Bits>,
}

/// A kernel that is ready to run.
#[derive(Debug, PartialEq, Eq)]
pub enum PreparedKernel {
    GridInit(GridInitKernel),
    Warp2d(WarpKernel<2>),
    Warp3d(WarpKernel<3>),
    Sample2d(SampleKernel<2>),
    Sample3d(SampleKernel<3>),
    Combine(CombineKernel),
}

/// The value of a [`PreparedKernel`].
pub enum PreparedView {
    GridInit(GraphDimension),
    Told(FastNoiseKernel, PayloadView),
}

impl<const N: usize> View for WarpKernel<N> {
    type V = PayloadView;

    open spec fn view(&self) -> PayloadView {
        PayloadView::Warp {
            source: self.source.coords@,
            output: self.output.coords@,
            noise: self.noise,
        }
    }
}

impl<const N: usize> View for SampleKernel<N> {
    type V = PayloadView;

    open spec fn view(&self) -> PayloadView {
        PayloadView::Sample { source: self.source.coords@, output: self.output, noise: self.noise }
    }
}

impl View for CombineKernel {
    type V = PayloadView;

    open spec fn view(&self) -> PayloadView {
        PayloadView::Combine {
            op: self.op,
            inputs: self.inputs@,
            output: self.output,
            params: self.params@,
        }
    }
}

impl View for PreparedKernel {
    type V = PreparedView;

    open spec fn view(&self) -> PreparedView {
        match *self {
            PreparedKernel::GridInit(kernel) => PreparedView::GridInit(kernel.dimension),
            PreparedKernel::Warp2d(kernel) => PreparedView::Told(FastNoiseKernel::Warp2d, kernel@),
            PreparedKernel::Warp3d(kernel) => PreparedView::Told(FastNoiseKernel::Warp3d, kernel@),
            PreparedKernel::Sample2d(kernel) => PreparedView::Told(
                FastNoiseKernel::Sample2d,
                kernel@,
            ),
            PreparedKernel::Sample3d(kernel) => PreparedView::Told(
                FastNoiseKernel::Sample3d,
                kernel@,
            ),
            PreparedKernel::Combine(kernel) => PreparedView::Told(
                FastNoiseKernel::Combine,
                kernel@,
            ),
        }
    }
}

/// The kernel that a plan asks for, or why there is none: its kind is unknown, or
/// its payload cannot be read.
pub open spec fn prepared(kernel: KernelView) -> Result<PreparedView, ErrorView> {
    match kernel_of(kernel.kind_id) {
        None => Err(ErrorView::BackendRejectedKernel(kernel.kind_id)),
        Some(FastNoiseKernel::InitGrid2d) => Ok(PreparedView::GridInit(GraphDimension::D2)),
        Some(FastNoiseKernel::InitGrid3d) => Ok(PreparedView::GridInit(GraphDimension::D3)),
        Some(known) => match read_payload(known, kernel.payload, 0).0 {
            Err(error) => Err(error),
            Ok(payload) => Ok(PreparedView::Told(known, payload)),
        },
    }
}

/// Makes kernels out of those of a plan.
#[derive(Clone, Copy, Debug, PartialEq, Eq, Structural)]
pub struct FastNoiseKernelFactory;

impl FastNoiseKernelFactory {
    pub fn prepare(&self, kernel: &KernelSpec) -> (ready: FastNoiseResult<PreparedKernel>)
        ensures
            outcome(ready) == prepared(kernel@),
    {
        let kind = match FastNoiseKernel::from_kind(kernel.kind_id) {
            Some(kind) => kind,
            None => {
                return Err(FastNoiseError::BackendRejectedKernel(kernel.kind_id));
            },
        };
        match kind {
            FastNoiseKernel::InitGrid2d => Ok(
                PreparedKernel::GridInit(GridInitKernel { dimension: GraphDimension::D2 }),
            ),
            FastNoiseKernel::InitGrid3d => Ok(
                PreparedKernel::GridInit(GridInitKernel { dimension: GraphDimension::D3 }),
            ),
            FastNoiseKernel::Warp2d => {
                let payload = WarpPayload::<2>::decode(kind, kernel.payload.as_slice())?;
                Ok(
                    PreparedKernel::Warp2d(
                        WarpKernel {
                            source: payload.source,
                            output: payload.output,
                            noise: payload.noise,
                        },
                    ),
                )
            },
            FastNoiseKernel::Warp3d => {
                let payload = WarpPayload::<3>::decode(kind, kernel.payload.as_slice())?;
                Ok(
                    PreparedKernel::Warp3d(
                        WarpKernel {
                            source: payload.source,
                            output: payload.output,
                            noise: payload.noise,
                        },
                    ),
                )
            },
            FastNoiseKernel::Sample2d => {
                let payload = SamplePayload::<2>::decode(kind, kernel.payload.as_slice())?;
                Ok(
                    PreparedKernel::Sample2d(
                        SampleKernel {
                            source: payload.source,
                            output: payload.output,
                            noise: payload.noise,
                        },
                    ),
                )
            },
            FastNoiseKernel::Sample3d => {
                let payload = SamplePayload::<3>::decode(kind, kernel.payload.as_slice())?;
                Ok(
                    PreparedKernel::Sample3d(
                        SampleKernel {
                            source: payload.source,
                            output: payload.output,
                            noise: payload.noise,
                        },
                    ),
                )
            },
            FastNoiseKernel::Combine => {
                let payload = CombinePayload::decode(kind, kernel.payload.as_slice())?;
                Ok(
                    PreparedKernel::Combine(
                        CombineKernel {
                            op: payload.op,
                            inputs: payload.inputs,
                            output: payload.output,
                            params: payload.params,
                        },
                    ),
                )
            },
        }
    }
}

/// An operation on two fields.
#[derive(Clone, Copy, Debug, PartialEq, Eq, Structural)]
pub enum PairOp {
    Add,
    Sub,
    Mul,
    Min,
    Max,
}

/// How a kernel computes a sample from those at the same index in the buffers
/// that it reads.
#[derive(Clone, Copy, Debug, PartialEq, Eq, Structural)]
pub enum Formula {
    /// The position `(x, y)`, moved.
    Warp2d(FastNoiseLite),
    /// The position `(x, y, z)`, moved.
    Warp3d(FastNoiseLite),
    /// Noise at the position `(x, y)`.
    Sample2d(FastNoiseLite),
    /// Noise at the position `(x, y, z)`.
    Sample3d(FastNoiseLite),
    /// The operation on both values.
    Pair(PairOp),
    /// The value, brought between `min` and `max`.
    Clamp { min: F32Bits, max: F32Bits },
    /// The value, taken from the range of `src` to that of `dst`.
    Remap { src_min: F32Bits, src_max: F32Bits, dst_min: F32Bits, dst_max: F32Bits },
    /// The value and what the height adds to it.
    YGradient { y_min: F32Bits, y_max: F32Bits, out_min: F32Bits, out_max: F32Bits },
}

/// What a kernel does with the buffers of a batch: step by step it computes the
/// samples of the buffers at the end of `bound` from those at its beginning.
#[derive(Debug, PartialEq, Eq)]
pub struct KernelRun {
    pub bound: Vec<BufferSlot>,
    pub formula: Formula,
    pub walk: SampleWalk,
}

/// The value of a [`KernelRun`].
pub struct RunView {
    pub bound: Seq<BufferSlot>,
    pub formula: Formula,
    pub steps: Seq<SampleStep>,
}

impl View for KernelRun {
    type V = RunView;

    open spec fn view(&self) -> RunView {
        RunView { bound: self.bound@, formula: self.formula, steps: self.walk.remaining() }
    }
}

/// The steps over all samples of a batch.
pub open spec fn batch_steps(offsets: Seq<u32>, check_every: usize) -> Seq<SampleStep> {
    sample_steps(total_samples(offsets), check_every as nat, 0)
}

/// A walk over all samples of a batch.
fn walk_batch(offsets: &[u32], check_every: usize) -> (walk: SampleWalk)
    requires
        check_every > 0,
    ensures
        walk.wf(),
        walk.remaining() == batch_steps(offsets@, check_every),
        !walk.is_awaiting(),
{
    SampleWalk::new(total_samples_from_offsets(offsets), check_every)
}

/// What laying out the grids of a batch does.
#[derive(Debug, PartialEq, Eq)]
pub struct GridRun<'a> {
    /// The buffers of positions that room is made in.
    pub outputs: Vec<BufferSlot>,
    pub walk: GridWalk<'a>,
}

impl GridInitKernel {
    pub fn run<'a>(&self, meta: &'a [u32], offsets: &'a [u32], query_count: usize) -> (run: GridRun<
        'a,
    >)
        requires
            (Grids {
                dimension: self.dimension,
                meta: meta@,
                offsets: offsets@,
                query_count: query_count as nat,
            }).fit(),
        ensures
            run.outputs@ == base_slots(self.dimension),
            run.walk.wf(),
            run.walk.remaining() == (Grids {
                dimension: self.dimension,
                meta: meta@,
                offsets: offsets@,
                query_count: query_count as nat,
            }).steps(0),
            !run.walk.is_awaiting(),
    {
        let mut outputs: Vec<BufferSlot> = Vec::new();
        outputs.push(BufferSlot(SLOT_BASE_X));
        outputs.push(BufferSlot(SLOT_BASE_Y));
        if self.dimension == GraphDimension::D3 {
            outputs.push(BufferSlot(SLOT_BASE_Z));
        }
        assert(outputs@ =~= base_slots(self.dimension));
        GridRun { outputs, walk: GridWalk::new(self.dimension, meta, offsets, query_count) }
    }
}

/// The buffers that a kernel reads.
pub open spec fn payload_reads(payload: PayloadView) -> Seq<BufferSlot> {
    match payload {
        PayloadView::Warp { source, .. } => source,
        PayloadView::Sample { source, .. } => source,
        PayloadView::Combine { op: CombineOp::YGradient, inputs, .. } => inputs.push(
            BufferSlot(SLOT_BASE_Y),
        ),
        PayloadView::Combine { inputs, .. } => inputs,
    }
}

/// The buffers that a kernel writes.
pub open spec fn payload_writes(payload: PayloadView) -> Seq<BufferSlot> {
    match payload {
        PayloadView::Warp { output, .. } => output,
        PayloadView::Sample { output, .. } => seq![output],
        PayloadView::Combine { output, .. } => seq![output],
    }
}

/// The operation on two fields that a combination is, if it is one.
pub open spec fn pair_op(op: CombineOp) -> Option<PairOp> {
    match op {
        CombineOp::Add => Some(PairOp::Add),
        CombineOp::Sub => Some(PairOp::Sub),
        CombineOp::Mul => Some(PairOp::Mul),
        CombineOp::Min => Some(PairOp::Min),
        CombineOp::Max => Some(PairOp::Max),
        _ => None,
    }
}

/// What is wrong with the parameters and the input of an operation on one field,
/// if anything is; the parameters come first.
pub open spec fn single_refusal(op: CombineOp, inputs: nat, params: nat) -> Option<ErrorView> {
    if params != param_arity(op) {
        Some(wrong_count(op, param_arity(op), " parameters, got "@, params))
    } else {
        one_input_refusal(inputs)
    }
}

/// What a combination does, or what is wrong with its inputs and parameters.
pub open spec fn combine_run(
    op: CombineOp,
    inputs: Seq<BufferSlot>,
    output: BufferSlot,
    params: Seq<F32Bits>,
    offsets: Seq<u32>,
) -> Result<RunView, ErrorView> {
    if let Some(pair) = pair_op(op) {
        match two_inputs_refusal(inputs.len()) {
            Some(error) => Err(error),
            None => Ok(
                RunView {
                    bound: seq![inputs[0], inputs[1], output],
                    formula: Formula::Pair(pair),
                    steps: batch_steps(offsets, CANCEL_CHECK_EVERY_2D),
                },
            ),
        }
    } else {
        match single_refusal(op, inputs.len(), params.len()) {
            Some(error) => Err(error),
            None => if op == CombineOp::Clamp {
                Ok(
                    RunView {
                        bound: seq![inputs[0], output],
                        formula: Formula::Clamp { min: params[0], max: params[1] },
                        steps: batch_steps(offsets, CANCEL_CHECK_EVERY_2D),
                    },
                )
            } else if op == CombineOp::Remap {
                Ok(
                    RunView {
                        bound: seq![inputs[0], output],
                        formula: Formula::Remap {
                            src_min: params[0],
                            src_max: params[1],
                            dst_min: params[2],
                            dst_max: params[3],
                        },
                        steps: batch_steps(offsets, CANCEL_CHECK_EVERY_2D),
                    },
                )
            } else {
                Ok(
                    RunView {
                        bound: seq![inputs[0], BufferSlot(SLOT_BASE_Y), output],
                        formula: Formula::YGradient {
                            y_min: params[0],
                            y_max: params[1],
                            out_min: params[2],
                            out_max: params[3],
                        },
                        steps: batch_steps(offsets, CANCEL_CHECK_EVERY_3D),
                    },
                )
            },
        }
    }
}

fn list_slots<const N: usize>(bound: &mut Vec<BufferSlot>, slots: &PositionSlots<N>)
    ensures
        final(bound)@ == old(bound)@ + slots.coords@,
{
    let mut i: usize = 0;
    assert(bound@ =~= old(bound)@ + slots.coords@.take(0));
    while i < N
        invariant
            i <= N,
            bound@ == old(bound)@ + slots.coords@.take(i as int),
        decreases N - i,
    {
        bound.push(slots.coords[i]);
        assert(slots.coords@.take(i + 1) =~= slots.coords@.take(i as int).push(
            slots.coords@[i as int],
        ));
        assert(bound@ =~= old(bound)@ + slots.coords@.take(i + 1));
        i += 1;
    }
    assert(slots.coords@.take(N as int) =~= slots.coords@);
}

impl<const N: usize> WarpKernel<N> {
    /// Moves positions by `formula`.
    fn warp(&self, formula: Formula, offsets: &[u32], check_every: usize) -> (run: KernelRun)
        requires
            check_every > 0,
        ensures
            run@ == (RunView {
                bound: self.source.coords@ + self.output.coords@,
                formula,
                steps: batch_steps(offsets@, check_every),
            }),
            run.walk.wf(),
            !run.walk.is_awaiting(),
    {
        let mut bound: Vec<BufferSlot> = Vec::new();
        list_slots(&mut bound, &self.source);
        list_slots(&mut bound, &self.output);
        assert(bound@ =~= self.source.coords@ + self.output.coords@);
        KernelRun { bound, formula, walk: walk_batch(offsets, check_every) }
    }

    /// The buffers that the kernel makes room in.
    pub fn outputs(&self) -> (slots: Vec<BufferSlot>)
        ensures
            slots@ == payload_writes(self@),
    {
        let mut slots: Vec<BufferSlot> = Vec::new();
        list_slots(&mut slots, &self.output);
        assert(slots@ =~= self.output.coords@);
        slots
    }
}

impl WarpKernel<2> {
    pub fn run(&self, offsets: &[u32]) -> (run: KernelRun)
        ensures
            run@ == (RunView {
                bound: self.source.coords@ + self.output.coords@,
                formula: Formula::Warp2d(self.noise),
                steps: batch_steps(offsets@, CANCEL_CHECK_EVERY_2D),
            }),
            run.walk.wf(),
            !run.walk.is_awaiting(),
    {
        self.warp(Formula::Warp2d(self.noise), offsets, CANCEL_CHECK_EVERY_2D)
    }
}

impl WarpKernel<3> {
    pub fn run(&self, offsets: &[u32]) -> (run: KernelRun)
        ensures
            run@ == (RunView {
                bound: self.source.coords@ + self.output.coords@,
                formula: Formula::Warp3d(self.noise),
                steps: batch_steps(offsets@, CANCEL_CHECK_EVERY_3D),
            }),
            run.walk.wf(),
            !run.walk.is_awaiting(),
    {
        self.warp(Formula::Warp3d(self.noise), offsets, CANCEL_CHECK_EVERY_3D)
    }
}

impl<const N: usize> SampleKernel<N> {
    /// Samples positions by `formula`.
    fn sample(&self, formula: Formula, offsets: &[u32], check_every: usize) -> (run: KernelRun)
        requires
            check_every > 0,
        ensures
            run@ == (RunView {
                bound: self.source.coords@.push(self.output),
                formula,
                steps: batch_steps(offsets@, check_every),
            }),
            run.walk.wf(),
            !run.walk.is_awaiting(),
    {
        let mut bound: Vec<BufferSlot> = Vec::new();
        list_slots(&mut bound, &self.source);
        bound.push(self.output);
        assert(bound@ =~= self.source.coords@.push(self.output));
        KernelRun { bound, formula, walk: walk_batch(offsets, check_every) }
    }

    /// The buffers that the kernel makes room in.
    pub fn outputs(&self) -> (slots: Vec<BufferSlot>)
        ensures
            slots@ == payload_writes(self@),
    {
        vec![self.output]
    }
}

impl SampleKernel<2> {
    pub fn run(&self, offsets: &[u32]) -> (run: KernelRun)
        ensures
            run@ == (RunView {
                bound: self.source.coords@.push(self.output),
                formula: Formula::Sample2d(self.noise),
                steps: batch_steps(offsets@, CANCEL_CHECK_EVERY_2D),
            }),
            run.walk.wf(),
            !run.walk.is_awaiting(),
    {
        self.sample(Formula::Sample2d(self.noise), offsets, CANCEL_CHECK_EVERY_2D)
    }
}

impl SampleKernel<3> {
    pub fn run(&self, offsets: &[u32]) -> (run: KernelRun)
        ensures
            run@ == (RunView {
                bound: self.source.coords@.push(self.output),
                formula: Formula::Sample3d(self.noise),
                steps: batch_steps(offsets@, CANCEL_CHECK_EVERY_3D),
            }),
            run.walk.wf(),
            !run.walk.is_awaiting(),
    {
        self.sample(Formula::Sample3d(self.noise), offsets, CANCEL_CHECK_EVERY_3D)
    }
}

impl CombineKernel {
    /// The buffers that the kernel makes room in, also where it cannot run.
    pub fn outputs(&self) -> (slots: Vec<BufferSlot>)
        ensures
            slots@ == payload_writes(self@),
    {
        vec![self.output]
    }

    pub fn run(&self, offsets: &[u32]) -> (run: FastNoiseResult<KernelRun>)
        ensures
            outcome(run) == combine_run(
                self.op,
                self.inputs@,
                self.output,
                self.params@,
                offsets@,
            ),
            run is Ok ==> run->Ok_0.walk.wf() && !run->Ok_0.walk.is_awaiting(),
    {
        match self.op {
            CombineOp::Add => self.run_binary(PairOp::Add, offsets),
            CombineOp::Sub => self.run_binary(PairOp::Sub, offsets),
            CombineOp::Mul => self.run_binary(PairOp::Mul, offsets),
            CombineOp::Min => self.run_binary(PairOp::Min, offsets),
            CombineOp::Max => self.run_binary(PairOp::Max, offsets),
            CombineOp::Clamp => {
                let values = expect_params::<2>(self.params.as_slice(), self.op)?;
                let input = expect_input(self.inputs.as_slice())?;
                let run = KernelRun {
                    bound: vec![input, self.output],
                    formula: Formula::Clamp { min: values[0], max: values[1] },
                    walk: walk_batch(offsets, CANCEL_CHECK_EVERY_2D),
                };
                assert(run@.bound =~= seq![self.inputs@[0], self.output]);
                Ok(run)
            },
            CombineOp::Remap => {
                let values = expect_params::<4>(self.params.as_slice(), self.op)?;
                let input = expect_input(self.inputs.as_slice())?;
                let run = KernelRun {
                    bound: vec![input, self.output],
                    formula: Formula::Remap {
                        src_min: values[0],
                        src_max: values[1],
                        dst_min: values[2],
                        dst_max: values[3],
                    },
                    walk: walk_batch(offsets, CANCEL_CHECK_EVERY_2D),
                };
                assert(run@.bound =~= seq![self.inputs@[0], self.output]);
                Ok(run)
            },
            CombineOp::YGradient => {
                let values = expect_params::<4>(self.params.as_slice(), self.op)?;
                let input = expect_input(self.inputs.as_slice())?;
                let run = KernelRun {
                    bound: vec![input, BufferSlot(SLOT_BASE_Y), self.output],
                    formula: Formula::YGradient {
                        y_min: values[0],
                        y_max: values[1],
                        out_min: values[2],
                        out_max: values[3],
                    },
                    walk: walk_batch(offsets, CANCEL_CHECK_EVERY_3D),
                };
                assert(run@.bound =~= seq![
                    self.inputs@[0],
                    BufferSlot(SLOT_BASE_Y),
                    self.output,
                ]);
                Ok(run)
            },
        }
    }

    /// Runs an operation on two fields.
    fn run_binary(&self, op: PairOp, offsets: &[u32]) -> (run: FastNoiseResult<KernelRun>)
        requires
            pair_op(self.op) == Some(op),
        ensures
            outcome(run) == combine_run(
                self.op,
                self.inputs@,
                self.output,
                self.params@,
                offsets@,
            ),
            run is Ok ==> run->Ok_0.walk.wf() && !run->Ok_0.walk.is_awaiting(),
    {
        let (left, right) = expect_two_inputs(self.inputs.as_slice())?;
        let run = KernelRun {
            bound: vec![left, right, self.output],
            formula: Formula::Pair(op),
            walk: walk_batch(offsets, CANCEL_CHECK_EVERY_2D),
        };
        assert(run@.bound =~= seq![self.inputs@[0], self.inputs@[1], self.output]);
        Ok(run)
    }
}

/// A combination that runs binds what it reads and then what it writes.
pub proof fn law_combination_binds_what_it_touches(
    op: CombineOp,
    inputs: Seq<BufferSlot>,
    output: BufferSlot,
    params: Seq<F32Bits>,
    offsets: Seq<u32>,
)
    requires
        combine_run(op, inputs, output, params, offsets) is Ok,
    ensures
        combine_run(op, inputs, output, params, offsets)->Ok_0.bound == payload_reads(
            PayloadView::Combine { op, inputs, output, params },
        ) + payload_writes(PayloadView::Combine { op, inputs, output, params }),
{
    let payload = PayloadView::Combine { op, inputs, output, params };
    let run = combine_run(op, inputs, output, params, offsets)->Ok_0;
    assert(run.bound =~= payload_reads(payload) + payload_writes(payload));
}

/// A combination with as many inputs and parameters as its operation takes runs.
pub proof fn law_valid_combination_runs(
    op: CombineOp,
    inputs: Seq<BufferSlot>,
    output: BufferSlot,
    params: Seq<F32Bits>,
    offsets: Seq<u32>,
)
    requires
        arity_refusal(op, inputs.len(), params.len()) is None,
    ensures
        combine_run(op, inputs, output, params, offsets) is Ok,
{
}

/// The run of a kernel computes every sample of the batch, up to where the last
/// samples end: each once, from the first to the last, with a look for a
/// cancellation after every `check_every` of them.
pub proof fn law_runs_compute_every_sample(offsets: Seq<u32>, check_every: usize)
    requires
        check_every > 0,
    ensures
        ({
            let total = if offsets.len() == 0 {
                0
            } else {
                offsets[offsets.len() - 1] as nat
            };
            &&& evaluated(batch_steps(offsets, check_every)) == Seq::new(
                total,
                |k: int| k as usize,
            )
            &&& covers(batch_steps(offsets, check_every), total, check_every as nat)
        }),
{
    let total = total_samples(offsets);
    law_every_sample_is_computed(total, check_every as nat);
    law_walk_covers_the_samples(total, check_every as nat);
}

/// Kernels in the plane look for a cancellation after every 4096 samples, those in
/// space after every 2048.
pub proof fn law_kernels_look_often()
    ensures
        CANCEL_CHECK_EVERY_2D == 4096,
        CANCEL_CHECK_EVERY_3D == 2048,
{
}

/// Combinations of two fields run if and only if they have two inputs. They read
/// the first one, then the second, and compute what their operation says.
pub proof fn law_pairs_compute_their_operation(
    op: CombineOp,
    inputs: Seq<BufferSlot>,
    output: BufferSlot,
    params: Seq<F32Bits>,
    offsets: Seq<u32>,
)
    requires
        op == CombineOp::Add || op == CombineOp::Sub || op == CombineOp::Mul || op == CombineOp::Min
            || op == CombineOp::Max,
    ensures
        combine_run(op, inputs, output, params, offsets) is Ok <==> inputs.len() == 2,
        combine_run(op, inputs, output, params, offsets) matches Ok(run) ==> {
            &&& run.bound.len() == 3
            &&& run.bound[0] == inputs[0]
            &&& run.bound[1] == inputs[1]
            &&& run.bound[2] == output
            &&& run.formula == Formula::Pair(
                match op {
                    CombineOp::Add => PairOp::Add,
                    CombineOp::Sub => PairOp::Sub,
                    CombineOp::Mul => PairOp::Mul,
                    CombineOp::Min => PairOp::Min,
                    _ => PairOp::Max,
                },
            )
            &&& covers(
                run.steps,
                if offsets.len() == 0 {
                    0
                } else {
                    offsets[offsets.len() - 1] as nat
                },
                4096,
            )
        },
{
    law_runs_compute_every_sample(offsets, CANCEL_CHECK_EVERY_2D);
}

/// Combinations of one field run if and only if they have one input and as many
/// parameters as their formula has. Each parameter of the node stands in its own
/// place in the formula, and a gradient reads the height of the sample behind its
/// input.
pub proof fn law_formulas_carry_their_parameters(
    op: CombineOp,
    inputs: Seq<BufferSlot>,
    output: BufferSlot,
    params: Seq<F32Bits>,
    offsets: Seq<u32>,
)
    requires
        op == CombineOp::Clamp || op == CombineOp::Remap || op == CombineOp::YGradient,
    ensures
        combine_run(op, inputs, output, params, offsets) is Ok <==> (inputs.len() == 1
            && params.len() == if op == CombineOp::Clamp {
            2nat
        } else {
            4nat
        }),
        combine_run(op, inputs, output, params, offsets) matches Ok(run) ==> {
            &&& match run.formula {
                Formula::Clamp { min, max } => op == CombineOp::Clamp && params == seq![min, max],
                Formula::Remap { src_min, src_max, dst_min, dst_max } => op == CombineOp::Remap
                    && params == seq![src_min, src_max, dst_min, dst_max],
                Formula::YGradient { y_min, y_max, out_min, out_max } => op == CombineOp::YGradient
                    && params == seq![y_min, y_max, out_min, out_max],
                _ => false,
            }
            &&& run.bound[0] == inputs[0]
            &&& run.bound[run.bound.len() - 1] == output
            &&& run.bound.len() == if op == CombineOp::YGradient {
                3nat
            } else {
                2nat
            }
            &&& op == CombineOp::YGradient ==> run.bound[1] == BufferSlot(SLOT_BASE_Y)
            &&& covers(
                run.steps,
                if offsets.len() == 0 {
                    0
                } else {
                    offsets[offsets.len() - 1] as nat
                },
                if op == CombineOp::YGradient {
                    2048
                } else {
                    4096
                },
            )
        },
{
    law_runs_compute_every_sample(offsets, CANCEL_CHECK_EVERY_2D);
    law_runs_compute_every_sample(offsets, CANCEL_CHECK_EVERY_3D);
    if let Ok(run) = combine_run(op, inputs, output, params, offsets) {
        match run.formula {
            Formula::Clamp { min, max } => {
                assert(params =~= seq![min, max]);
            },
            Formula::Remap { src_min, src_max, dst_min, dst_max } => {
                assert(params =~= seq![src_min, src_max, dst_min, dst_max]);
            },
            Formula::YGradient { y_min, y_max, out_min, out_max } => {
                assert(params =~= seq![y_min, y_max, out_min, out_max]);
            },
            _ => {},
        }
    }
}

/// A kernel reads the slots that it is told to read, and writes those that it is
/// told to write; a gradient reads the height of the samples too.
pub proof fn law_payloads_name_what_is_touched(payload: PayloadView)
    ensures
        match payload {
            PayloadView::Warp { source, output, .. } => {
                payload_reads(payload) == source && payload_writes(payload) == output
            },
            PayloadView::Sample { source, output, .. } => {
                payload_reads(payload) == source && payload_writes(payload) == seq![output]
            },
            PayloadView::Combine { op, inputs, output, .. } => {
                &&& payload_writes(payload) == seq![output]
                &&& payload_reads(payload) == if op == CombineOp::YGradient {
                    inputs.push(BufferSlot(SLOT_BASE_Y))
                } else {
                    inputs
                }
            },
        },
{
}

/// A kernel of a plan is prepared if and only if its kind is known and what it is
/// told can be read; it is then told just that, and a grid kernel nothing.
pub proof fn law_prepared_is_what_was_sent(kernel: KernelView)
    ensures
        kernel.kind_id > 6 <==> prepared(kernel) == Err::<PreparedView, ErrorView>(
            ErrorView::BackendRejectedKernel(kernel.kind_id),
        ),
        kernel.kind_id == 0 ==> prepared(kernel) == Ok::<PreparedView, ErrorView>(
            PreparedView::GridInit(GraphDimension::D2),
        ),
        kernel.kind_id == 1 ==> prepared(kernel) == Ok::<PreparedView, ErrorView>(
            PreparedView::GridInit(GraphDimension::D3),
        ),
        2 <= kernel.kind_id <= 6 ==> match prepared(kernel) {
            Err(error) => error is InvalidSpec,
            Ok(PreparedView::GridInit(_)) => false,
            Ok(PreparedView::Told(known, payload)) => {
                &&& known == (if kernel.kind_id == 2 {
                    FastNoiseKernel::Warp2d
                } else if kernel.kind_id == 3 {
                    FastNoiseKernel::Warp3d
                } else if kernel.kind_id == 4 {
                    FastNoiseKernel::Sample2d
                } else if kernel.kind_id == 5 {
                    FastNoiseKernel::Sample3d
                } else {
                    FastNoiseKernel::Combine
                })
                &&& takes(known, payload)
                &&& payload_bytes(payload).is_prefix_of(kernel.payload)
            },
        },
{
    if 2 <= kernel.kind_id <= 6 {
        let known = kernel_of(kernel.kind_id)->0;
        if read_payload(known, kernel.payload, 0).0 is Ok {
            law_payload_is_written_back(known, kernel.payload);
        } else {
            lemma_refusal_is_invalid(known, kernel.payload);
        }
    }
}

/// The value of a kernel that is ready holds what the kernel is and what it was
/// told, and the value of a run what it reads and writes, how it computes and the
/// steps that are left.
pub proof fn law_kernel_values_hold_the_kernel(kernel: PreparedKernel, run: KernelRun)
    ensures
        match kernel {
            PreparedKernel::GridInit(grids) => kernel@ == PreparedView::GridInit(grids.dimension),
            PreparedKernel::Warp2d(warp) => kernel@ == PreparedView::Told(
                FastNoiseKernel::Warp2d,
                PayloadView::Warp {
                    source: warp.source.coords@,
                    output: warp.output.coords@,
                    noise: warp.noise,
                },
            ),
            PreparedKernel::Warp3d(warp) => kernel@ == PreparedView::Told(
                FastNoiseKernel::Warp3d,
                PayloadView::Warp {
                    source: warp.source.coords@,
                    output: warp.output.coords@,
                    noise: warp.noise,
                },
            ),
            PreparedKernel::Sample2d(sample) => kernel@ == PreparedView::Told(
                FastNoiseKernel::Sample2d,
                PayloadView::Sample {
                    source: sample.source.coords@,
                    output: sample.output,
                    noise: sample.noise,
                },
            ),
            PreparedKernel::Sample3d(sample) => kernel@ == PreparedView::Told(
                FastNoiseKernel::Sample3d,
                PayloadView::Sample {
                    source: sample.source.coords@,
                    output: sample.output,
                    noise: sample.noise,
                },
            ),
            PreparedKernel::Combine(mix) => kernel@ == PreparedView::Told(
                FastNoiseKernel::Combine,
                PayloadView::Combine {
                    op: mix.op,
                    inputs: mix.inputs@,
                    output: mix.output,
                    params: mix.params@,
                },
            ),
        },
        run@.bound == run.bound@,
        run@.formula == run.formula,
        run@.steps == run.walk.remaining(),
{
}

/// What is told of a combination that does not run is how many inputs it has, or,
/// of an operation on one field, first that it has a wrong number of parameters.
pub proof fn law_refused_combinations_are_told(
    op: CombineOp,
    inputs: Seq<BufferSlot>,
    output: BufferSlot,
    params: Seq<F32Bits>,
    offsets: Seq<u32>,
)
    ensures
        combine_run(op, inputs, output, params, offsets) matches Err(error) ==> match op {
            CombineOp::Add | CombineOp::Sub | CombineOp::Mul | CombineOp::Min | CombineOp::Max => {
                error == ErrorView::InvalidSpec(
                    if inputs.len() == 0 {
                        "combine op expects 2 inputs, but got none"@
                    } else if inputs.len() == 1 {
                        "combine op expects 2 inputs, but got only 1"@
                    } else {
                        "combine op expects 2 inputs, but got more than 2"@
                    },
                )
            },
            CombineOp::Clamp | CombineOp::Remap | CombineOp::YGradient => {
                let takes_params: nat = if op == CombineOp::Clamp {
                    2
                } else {
                    4
                };
                error == ErrorView::InvalidSpec(
                    if params.len() != takes_params {
                        "combine op "@ + op_name(op) + " expects "@ + decimal(takes_params)
                            + " parameters, got "@ + decimal(params.len())
                    } else if inputs.len() == 0 {
                        "combine op expects 1 input, but got none"@
                    } else {
                        "combine op expects 1 input, but got more than 1"@
                    },
                )
            },
        },
{
}

} // verus!

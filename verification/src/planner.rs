//! The planner: it keeps the graph, compiles it, and turns queries into buffers
//! and buffers into summaries.

use vstd::prelude::*;

use crate::compile::compile_graph;
use crate::error::{ErrorView, FastNoiseResult, outcome};
use crate::kernel_payload::PlannerScratch;
use crate::layout::{compiled, graph_refusal, slots_fit, writes_payloads};
use crate::model::{ChunkQuery, ChunkSummary, CompiledPlan, FastNoiseChange, FastNoiseGraphSpec};
use crate::noise::F32Bits;
use crate::query::{BatchView, QueryBuffers, encode_batch, encode_one, encoded, laid_out, laid_out_alone, shapes_match};
use crate::state::{FastNoiseState, apply_changes, change_views, described};
use crate::summary::{decode_batch, decode_one, first_window, samples_in, summary_of, window_at, window_count, windows_fit};

verus! {

/// A batch of a single query is best planned and summarized as one.
pub const PREFER_ONE_QUERY_INLINE: bool = true;

#[derive(Clone, Copy, Debug, PartialEq, Eq, Structural)]
pub struct FastNoisePlanner;

impl FastNoisePlanner {
    /// The state of a graph.
    pub fn init_state(&self, spec: &FastNoiseGraphSpec) -> (state: FastNoiseResult<FastNoiseState>)
        ensures
            state is Ok,
            state->Ok_0.wf(),
            state->Ok_0@ == described(spec@),
    {
        FastNoiseState::from_spec(spec)
    }

    /// Puts another graph in the place of the one in `state`.
    pub fn reset_state(&self, state: &mut FastNoiseState, spec: &FastNoiseGraphSpec) -> (done:
        FastNoiseResult<()>)
        ensures
            done is Ok,
            final(state).wf(),
            final(state)@ == described(spec@),
    {
        state.reset_from_spec(spec)
    }

    /// Makes changes to a graph, one by one.
    pub fn apply(&self, state: &mut FastNoiseState, changes: &[FastNoiseChange]) -> (done:
        FastNoiseResult<()>)
        requires
            old(state).wf(),
        ensures
            done is Ok,
            final(state).wf(),
            final(state)@ == old(state)@.changed_all(change_views(changes@)),
    {
        apply_changes(state, changes)
    }

    /// The graph after changes, beside the one before them.
    pub fn updated_state(&self, state: &FastNoiseState, changes: &[FastNoiseChange]) -> (next:
        FastNoiseResult<FastNoiseState>)
        requires
            state.wf(),
        ensures
            next is Ok,
            next->Ok_0.wf(),
            next->Ok_0@ == state@.changed_all(change_views(changes@)),
    {
        let mut next = state.clone();
        self.apply(&mut next, changes)?;
        Ok(next)
    }

    /// Compiles a graph.
    pub fn compile(&self, state: &FastNoiseState, scratch: &mut PlannerScratch) -> (plan:
        FastNoiseResult<CompiledPlan>)
        requires
            state.wf(),
            graph_refusal(state@) is None ==> slots_fit(state@),
        ensures
            outcome(plan) == compiled(state@),
            plan is Ok ==> final(scratch).bytes@.len() == 0,
            writes_payloads(state@) ==> final(scratch).bytes@.len() == 0,
            !writes_payloads(state@) ==> final(scratch).bytes@ == old(scratch).bytes@,
    {
        compile_graph(state, scratch)
    }

    /// Lays out a batch of queries for a plan.
    pub fn encode_batch(
        &self,
        plan: &CompiledPlan,
        queries: &[ChunkQuery],
        packet: &mut QueryBuffers,
    ) -> (done: FastNoiseResult<()>)
        requires
            shapes_match(plan.planner_meta.dimension, queries@),
        ensures
            final(packet).query_count == queries@.len(),
            final(packet).meta@.len() == 3 * queries@.len(),
            final(packet).floats@.len() == 6 * queries@.len(),
            final(packet).offsets@.len() == queries@.len() + 1,
            final(packet)@ == laid_out(old(packet)@, queries@),
            match done {
                Ok(_) => encoded(queries@) == Ok::<BatchView, ErrorView>(final(packet)@),
                Err(error) => encoded(queries@) == Err::<BatchView, ErrorView>(error@),
            },
    {
        encode_batch(&plan.planner_meta, queries, packet)
    }

    /// Lays out a batch of a single query for a plan.
    pub fn encode_one(&self, plan: &CompiledPlan, query: &ChunkQuery, packet: &mut QueryBuffers) -> (
    done: FastNoiseResult<()>)
        requires
            query.dimension() == plan.planner_meta.dimension,
        ensures
            final(packet).query_count == 1,
            final(packet).meta@.len() == 3,
            final(packet).floats@.len() == 6,
            final(packet).offsets@.len() == 2,
            final(packet)@ == laid_out_alone(old(packet)@, *query),
            match done {
                Ok(_) => encoded(seq![*query]) == Ok::<BatchView, ErrorView>(final(packet)@),
                Err(error) => encoded(seq![*query]) == Err::<BatchView, ErrorView>(error@),
            },
    {
        encode_one(&plan.planner_meta, query, packet)
    }

    /// Summarizes each query of a batch: `values` are the samples in the final
    /// slot of the plan, and `means` the means of the samples of each query.
    pub fn decode_batch(&self, values: &[F32Bits], offsets: &[u32], means: &[F32Bits]) -> (summaries:
        FastNoiseResult<Vec<ChunkSummary>>)
        requires
            windows_fit(offsets@, values@.len()),
            means@.len() == window_count(offsets@),
        ensures
            summaries is Ok,
            summaries->Ok_0@.len() == window_count(offsets@),
            forall|i: int|
                0 <= i < summaries->Ok_0@.len() ==> (#[trigger] summaries->Ok_0@[i])@ == summary_of(
                    samples_in(values@, window_at(offsets@, i)),
                    means@[i],
                ),
    {
        Ok(decode_batch(values, offsets, means))
    }

    /// Summarizes a batch of a single query.
    pub fn decode_one(&self, values: &[F32Bits], offsets: &[u32], mean: F32Bits) -> (summary:
        FastNoiseResult<ChunkSummary>)
        ensures
            outcome(summary) == (match first_window(offsets@, values@.len()) {
                Err(error) => Err(error),
                Ok(window) => Ok(summary_of(samples_in(values@, window), mean)),
            }),
    {
        decode_one(values, offsets, mean)
    }
}

} // verus!

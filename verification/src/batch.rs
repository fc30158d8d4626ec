//! What holds of every batch of queries, from its layout to its summaries.

use vstd::prelude::*;

use crate::error::ErrorView;
use crate::model::{ChunkQuery, GraphDimension};
use crate::noise::F32Bits;
use crate::query::{META_WORDS, batch_of, encoded, law_samples_lie_in_a_row, law_sizes_read_back, samples_before, total_samples};
use crate::summary::{Window, first_window, samples_in, summary_of, window_at, window_count, windows_fit};
use crate::walk::{GridStep, Grids, lemma_cell_bound};

verus! {

proof fn lemma_offset_at(queries: Seq<ChunkQuery>, k: int)
    requires
        encoded(queries) is Ok,
        0 <= k <= queries.len(),
    ensures
        batch_of(queries).offsets[k] == samples_before(queries, k),
    decreases k,
{
    law_samples_lie_in_a_row(queries);
    if k > 0 {
        lemma_offset_at(queries, k - 1);
        assert(batch_of(queries).offsets[k] == batch_of(queries).offsets[k - 1] + queries[k
            - 1].samples());
    } else {
        assert(samples_before(queries, 0) == 0);
    }
}

proof fn lemma_samples_grow(queries: Seq<ChunkQuery>, few: int, more: int)
    requires
        0 <= few <= more,
    ensures
        samples_before(queries, few) <= samples_before(queries, more),
    decreases more - few,
{
    if few < more {
        lemma_samples_grow(queries, few, more - 1);
    }
}

proof fn lemma_offsets_grow(queries: Seq<ChunkQuery>, few: int, more: int)
    requires
        encoded(queries) is Ok,
        0 <= few <= more <= queries.len(),
    ensures
        batch_of(queries).offsets[few] <= batch_of(queries).offsets[more],
{
    lemma_offset_at(queries, few);
    lemma_offset_at(queries, more);
    lemma_samples_grow(queries, few, more);
}

/// The grids of queries on a plan of a dimension.
pub open spec fn grids_of(dimension: GraphDimension, queries: Seq<ChunkQuery>) -> Grids {
    Grids {
        dimension,
        meta: batch_of(queries).meta,
        offsets: batch_of(queries).offsets,
        query_count: batch_of(queries).query_count,
    }
}

/// All queries are of the given dimension.
pub open spec fn all_of(dimension: GraphDimension, queries: Seq<ChunkQuery>) -> bool {
    forall|i: int| 0 <= i < queries.len() ==> (#[trigger] queries[i]).dimension() == dimension
}

/// The grid of a query is found in the batch with its size, and its samples end
/// where those of the next one begin.
proof fn lemma_grid_at(dimension: GraphDimension, queries: Seq<ChunkQuery>, i: int)
    requires
        encoded(queries) is Ok,
        all_of(dimension, queries),
        0 <= i < queries.len(),
    ensures
        grids_of(dimension, queries).cells(i) == queries[i].samples(),
        grids_of(dimension, queries).offsets[i] + queries[i].samples() == grids_of(
            dimension,
            queries,
        ).offsets[i + 1],
        META_WORDS * i + META_WORDS <= grids_of(dimension, queries).meta.len(),
{
    let grids = grids_of(dimension, queries);
    law_samples_lie_in_a_row(queries);
    law_sizes_read_back(queries, i);
    assert(queries[i].dimension() == dimension);
    match queries[i] {
        ChunkQuery::Grid2D { width, height, .. } => {
            assert(width as nat * height as nat * 1 == width as nat * height as nat);
        },
        ChunkQuery::Grid3D { .. } => {},
    }
}

/// The grids of a batch can be laid out.
pub proof fn law_grids_fit(dimension: GraphDimension, queries: Seq<ChunkQuery>)
    requires
        encoded(queries) is Ok,
        all_of(dimension, queries),
    ensures
        grids_of(dimension, queries).fit(),
        grids_of(dimension, queries).count() == queries.len(),
{
    let grids = grids_of(dimension, queries);
    law_samples_lie_in_a_row(queries);
    assert forall|query: int| 0 <= query < grids.count() implies #[trigger] grids.grid_fits(
        query,
    ) by {
        lemma_grid_at(dimension, queries, query);
        lemma_offsets_grow(queries, query + 1, queries.len() as int);
    }
}

/// The samples whose positions steps set, in order.
pub open spec fn placed(steps: Seq<GridStep>) -> Seq<usize>
    decreases steps.len(),
{
    if steps.len() == 0 {
        Seq::empty()
    } else if let GridStep::Place { index, .. } = steps.last() {
        placed(steps.drop_last()).push(index)
    } else {
        placed(steps.drop_last())
    }
}

proof fn lemma_placed_joins(first: Seq<GridStep>, second: Seq<GridStep>)
    ensures
        placed(first + second) == placed(first) + placed(second),
    decreases second.len(),
{
    if second.len() == 0 {
        assert(first + second =~= first);
        assert(placed(first) + placed(second) =~= placed(first));
    } else {
        lemma_placed_joins(first, second.drop_last());
        assert((first + second).drop_last() =~= first + second.drop_last());
        assert(placed(first + second) =~= placed(first) + placed(second));
    }
}

/// The samples from `from` up to `to`.
pub open spec fn span(from: int, to: int) -> Seq<usize> {
    Seq::new((to - from) as nat, |k: int| (from + k) as usize)
}

proof fn lemma_spans_join(from: int, mid: int, to: int)
    requires
        from <= mid <= to,
    ensures
        span(from, mid) + span(mid, to) == span(from, to),
{
    assert(span(from, mid) + span(mid, to) =~= span(from, to));
}

proof fn lemma_row_places(grids: Grids, query: int, z: int, y: int, end: int)
    requires
        0 <= end <= grids.width(query),
    ensures
        placed(grids.row(query, z, y, 0).take(end)) == span(
            grids.cell_index(query, z, y, 0),
            grids.cell_index(query, z, y, 0) + end,
        ),
    decreases end,
{
    let row = grids.row(query, z, y, 0);
    let first = grids.cell_index(query, z, y, 0);
    if end > 0 {
        lemma_row_places(grids, query, z, y, end - 1);
        assert(row.take(end).drop_last() =~= row.take(end - 1));
        assert(placed(row.take(end)) =~= span(first, first + end));
    } else {
        assert(placed(row.take(end)) =~= span(first, first));
    }
}

proof fn lemma_check_places(grids: Grids, y: int)
    ensures
        placed(grids.check(y)) == Seq::<usize>::empty(),
{
    let poll = seq![GridStep::Poll];
    assert(poll.drop_last() =~= Seq::empty());
    assert(placed(Seq::<GridStep>::empty()) =~= Seq::empty());
}

proof fn lemma_rows_place(grids: Grids, query: int, z: int, y: int)
    requires
        0 <= y <= grids.height(query),
    ensures
        placed(grids.rows(query, z, y)) == span(
            grids.cell_index(query, z, y, 0),
            grids.cell_index(query, z, grids.height(query) as int, 0),
        ),
        grids.cell_index(query, z, y, 0) <= grids.cell_index(
            query,
            z,
            grids.height(query) as int,
            0,
        ),
    decreases grids.height(query) - y,
{
    let width = grids.width(query) as int;
    let height = grids.height(query) as int;
    let first = grids.cell_index(query, z, y, 0);
    let end = grids.cell_index(query, z, height, 0);
    if y < height {
        let next = grids.cell_index(query, z, y + 1, 0);
        assert((z * height + (y + 1)) * width == (z * height + y) * width + width)
            by (nonlinear_arith);
        assert(next == first + width);
        lemma_rows_place(grids, query, z, y + 1);
        lemma_row_places(grids, query, z, y, width);
        let row = grids.row(query, z, y, 0);
        assert(row.take(width) =~= row);
        let after = grids.rows(query, z, y + 1);
        lemma_check_places(grids, y);
        lemma_placed_joins(grids.check(y), after);
        lemma_placed_joins(row, grids.check(y) + after);
        assert(placed(grids.check(y)) + placed(after) =~= placed(after));
        lemma_spans_join(first, next, end);
    } else {
        assert(span(first, end) =~= Seq::empty());
    }
}

proof fn lemma_layers_place(grids: Grids, query: int, z: int)
    requires
        0 <= z <= grids.depth(query),
    ensures
        placed(grids.layers(query, z)) == span(
            grids.cell_index(query, z, 0, 0),
            grids.cell_index(query, grids.depth(query) as int, 0, 0),
        ),
        grids.cell_index(query, z, 0, 0) <= grids.cell_index(
            query,
            grids.depth(query) as int,
            0,
            0,
        ),
    decreases grids.depth(query) - z,
{
    let height = grids.height(query) as int;
    let depth = grids.depth(query) as int;
    let first = grids.cell_index(query, z, 0, 0);
    let end = grids.cell_index(query, depth, 0, 0);
    if z < depth {
        let next = grids.cell_index(query, z + 1, 0, 0);
        assert(z * height + height == (z + 1) * height) by (nonlinear_arith);
        assert(grids.cell_index(query, z, height, 0) == next);
        lemma_rows_place(grids, query, z, 0);
        lemma_layers_place(grids, query, z + 1);
        lemma_placed_joins(grids.rows(query, z, 0), grids.layers(query, z + 1));
        lemma_spans_join(first, next, end);
    } else {
        assert(span(first, end) =~= Seq::empty());
    }
}

proof fn lemma_steps_place(dimension: GraphDimension, queries: Seq<ChunkQuery>, query: int)
    requires
        encoded(queries) is Ok,
        all_of(dimension, queries),
        0 <= query <= queries.len(),
    ensures
        placed(grids_of(dimension, queries).steps(query)) == span(
            batch_of(queries).offsets[query] as int,
            total_samples(batch_of(queries).offsets) as int,
        ),
    decreases queries.len() - query,
{
    let grids = grids_of(dimension, queries);
    let offsets = batch_of(queries).offsets;
    law_grids_fit(dimension, queries);
    law_samples_lie_in_a_row(queries);
    let total = total_samples(offsets) as int;
    if query < queries.len() {
        lemma_grid_at(dimension, queries, query);
        lemma_steps_place(dimension, queries, query + 1);
        lemma_layers_place(grids, query, 0);
        lemma_placed_joins(grids.layers(query, 0), grids.steps(query + 1));
        let width = grids.width(query) as int;
        let height = grids.height(query) as int;
        let depth = grids.depth(query) as int;
        assert((0 * height + 0) * width == 0) by (nonlinear_arith);
        assert((depth * height + 0) * width == width * height * depth) by (nonlinear_arith);
        assert(grids.cell_index(query, 0, 0, 0) == offsets[query]);
        assert(grids.cell_index(query, depth, 0, 0) == offsets[query + 1]);
        lemma_offsets_grow(queries, query + 1, queries.len() as int);
        lemma_spans_join(offsets[query] as int, offsets[query + 1] as int, total);
    } else {
        assert(span(offsets[query] as int, total) =~= Seq::empty());
    }
}

/// Laying out the grids of a batch sets the position of every sample of the batch
/// once, from the first to the last.
pub proof fn law_every_sample_is_placed(dimension: GraphDimension, queries: Seq<ChunkQuery>)
    requires
        encoded(queries) is Ok,
        all_of(dimension, queries),
    ensures
        placed(grids_of(dimension, queries).steps(0)) == Seq::new(
            total_samples(batch_of(queries).offsets),
            |k: int| k as usize,
        ),
{
    law_samples_lie_in_a_row(queries);
    lemma_steps_place(dimension, queries, 0);
    let total = total_samples(batch_of(queries).offsets);
    assert(span(0, total as int) =~= Seq::new(total, |k: int| k as usize));
}

/// The samples of a batch are summarized query by query: the summary of each
/// query covers as many samples as it asks for, and they begin where those of
/// the query before it end.
pub proof fn law_summaries_cover_queries(
    queries: Seq<ChunkQuery>,
    values: Seq<F32Bits>,
    mean: F32Bits,
    i: int,
)
    requires
        encoded(queries) is Ok,
        values.len() >= total_samples(batch_of(queries).offsets),
        0 <= i < queries.len(),
    ensures
        windows_fit(batch_of(queries).offsets, values.len()),
        window_count(batch_of(queries).offsets) == queries.len(),
        window_at(batch_of(queries).offsets, i).start == samples_before(queries, i),
        window_at(batch_of(queries).offsets, i).end == samples_before(queries, i + 1),
        summary_of(
            samples_in(values, window_at(batch_of(queries).offsets, i)),
            mean,
        ).samples == queries[i].samples(),
{
    let offsets = batch_of(queries).offsets;
    law_samples_lie_in_a_row(queries);
    assert forall|k: int| 0 <= k < window_count(offsets) implies (#[trigger] window_at(
        offsets,
        k,
    )).start <= window_at(offsets, k).end <= values.len() by {
        lemma_offset_at(queries, k);
        lemma_offset_at(queries, k + 1);
        lemma_samples_grow(queries, k + 1, queries.len() as int);
    }
    lemma_offset_at(queries, i);
    lemma_offset_at(queries, i + 1);
    assert(window_at(offsets, i).start <= window_at(offsets, i).end <= values.len());
}

/// A batch of a single query is summarized as the first query of a batch is.
pub proof fn law_single_query_is_first_of_batch(offsets: Seq<u32>, len: nat)
    requires
        offsets.len() >= 2,
        offsets[0] == 0,
        offsets[1] <= len,
    ensures
        first_window(offsets, len) == Ok::<Window, ErrorView>(window_at(offsets, 0)),
{
}

/// Every step sets the position of a cell of a grid, or looks for a cancellation;
/// a look follows the last cell of each row that one is due after.
spec fn is_orderly(grids: Grids, steps: Seq<GridStep>) -> bool {
    &&& forall|k: int|
        0 <= k < steps.len() ==> match #[trigger] steps[k] {
            GridStep::Place { query, x, y, z, index } => {
                &&& query < grids.count()
                &&& x < grids.width(query as int)
                &&& y < grids.height(query as int)
                &&& z < grids.depth(query as int)
                &&& index == grids.cell_index(query as int, z as int, y as int, x as int)
                &&& x + 1 == grids.width(query as int) && y as nat % grids.check_every() == 0 ==> k
                    + 1 < steps.len() && steps[k + 1] == GridStep::Poll
            },
            GridStep::Poll => true,
            GridStep::Finished => false,
        }
}

proof fn lemma_orderly_joins(grids: Grids, first: Seq<GridStep>, second: Seq<GridStep>)
    requires
        is_orderly(grids, first),
        is_orderly(grids, second),
    ensures
        is_orderly(grids, first + second),
{
    let both = first + second;
    assert forall|k: int| 0 <= k < both.len() implies match #[trigger] both[k] {
        GridStep::Place { query, x, y, z, index } => {
            &&& query < grids.count()
            &&& x < grids.width(query as int)
            &&& y < grids.height(query as int)
            &&& z < grids.depth(query as int)
            &&& index == grids.cell_index(query as int, z as int, y as int, x as int)
            &&& x + 1 == grids.width(query as int) && y as nat % grids.check_every() == 0 ==> k + 1
                < both.len() && both[k + 1] == GridStep::Poll
        },
        GridStep::Poll => true,
        GridStep::Finished => false,
    } by {
        if k < first.len() {
            assert(both[k] == first[k]);
            if k + 1 < first.len() {
                assert(both[k + 1] == first[k + 1]);
            }
        } else {
            assert(both[k] == second[k - first.len()]);
            if k + 1 < both.len() {
                assert(both[k + 1] == second[k + 1 - first.len()]);
            }
        }
    }
}

proof fn lemma_row_is_orderly(grids: Grids, query: int, z: int, y: int)
    requires
        grids.fit(),
        grids.offsets.len() <= usize::MAX,
        0 <= query < grids.count(),
        0 <= z < grids.depth(query),
        0 <= y < grids.height(query),
    ensures
        is_orderly(grids, grids.row(query, z, y, 0) + grids.check(y)),
{
    let row = grids.row(query, z, y, 0);
    let width = grids.width(query) as int;
    let both = row + grids.check(y);
    assert(grids.grid_fits(query));
    assert forall|k: int| 0 <= k < both.len() implies match #[trigger] both[k] {
        GridStep::Place { query: q, x, y: at_y, z: at_z, index } => {
            &&& q < grids.count()
            &&& x < grids.width(q as int)
            &&& at_y < grids.height(q as int)
            &&& at_z < grids.depth(q as int)
            &&& index == grids.cell_index(q as int, at_z as int, at_y as int, x as int)
            &&& x + 1 == grids.width(q as int) && at_y as nat % grids.check_every() == 0 ==> k + 1
                < both.len() && both[k + 1] == GridStep::Poll
        },
        GridStep::Poll => true,
        GridStep::Finished => false,
    } by {
        if k < row.len() {
            assert(both[k] == row[k]);
            lemma_cell_bound(
                width,
                grids.height(query) as int,
                grids.depth(query) as int,
                z,
                y,
                k,
            );
            assert(grids.cells(query) > 0) by (nonlinear_arith)
                requires
                    grids.cells(query) == grids.width(query) * grids.height(query) * grids.depth(
                        query,
                    ),
                    grids.width(query) > 0,
                    grids.height(query) > 0,
                    grids.depth(query) > 0,
            ;
            if k + 1 == width && y as nat % grids.check_every() == 0 {
                assert(both[k + 1] == grids.check(y)[0]);
            }
        } else {
            assert(both[k] == grids.check(y)[k - row.len()]);
        }
    }
}

proof fn lemma_rows_are_orderly(grids: Grids, query: int, z: int, y: int)
    requires
        grids.fit(),
        grids.offsets.len() <= usize::MAX,
        0 <= query < grids.count(),
        0 <= z < grids.depth(query),
        0 <= y,
    ensures
        is_orderly(grids, grids.rows(query, z, y)),
    decreases grids.height(query) - y,
{
    if y < grids.height(query) {
        lemma_row_is_orderly(grids, query, z, y);
        lemma_rows_are_orderly(grids, query, z, y + 1);
        let row = grids.row(query, z, y, 0);
        let after = grids.rows(query, z, y + 1);
        lemma_orderly_joins(grids, row + grids.check(y), after);
        assert(grids.rows(query, z, y) =~= (row + grids.check(y)) + after);
    }
}

proof fn lemma_layers_are_orderly(grids: Grids, query: int, z: int)
    requires
        grids.fit(),
        grids.offsets.len() <= usize::MAX,
        0 <= query < grids.count(),
        0 <= z,
    ensures
        is_orderly(grids, grids.layers(query, z)),
    decreases grids.depth(query) - z,
{
    if z < grids.depth(query) {
        lemma_rows_are_orderly(grids, query, z, 0);
        lemma_layers_are_orderly(grids, query, z + 1);
        lemma_orderly_joins(grids, grids.rows(query, z, 0), grids.layers(query, z + 1));
    }
}

proof fn lemma_steps_are_orderly(grids: Grids, query: int)
    requires
        grids.fit(),
        grids.offsets.len() <= usize::MAX,
        0 <= query,
    ensures
        is_orderly(grids, grids.steps(query)),
    decreases grids.count() - query,
{
    if query < grids.count() {
        lemma_layers_are_orderly(grids, query, 0);
        lemma_steps_are_orderly(grids, query + 1);
        lemma_orderly_joins(grids, grids.layers(query, 0), grids.steps(query + 1));
    }
}

/// A grid of a batch has the sides of its query.
proof fn lemma_own_sides(dimension: GraphDimension, queries: Seq<ChunkQuery>, i: int)
    requires
        encoded(queries) is Ok,
        all_of(dimension, queries),
        0 <= i < queries.len(),
    ensures
        match queries[i] {
            ChunkQuery::Grid2D { width, height, .. } => {
                &&& grids_of(dimension, queries).width(i) == width
                &&& grids_of(dimension, queries).height(i) == height
                &&& grids_of(dimension, queries).depth(i) == 1
                &&& grids_of(dimension, queries).check_every() == 32
            },
            ChunkQuery::Grid3D { width, height, depth, .. } => {
                &&& grids_of(dimension, queries).width(i) == width
                &&& grids_of(dimension, queries).height(i) == height
                &&& grids_of(dimension, queries).depth(i) == depth
                &&& grids_of(dimension, queries).check_every() == 16
            },
        },
{
    law_sizes_read_back(queries, i);
    assert(queries[i].dimension() == dimension);
}

/// The position that is set for a sample is that of its own cell: in the grid of
/// its query, whose rows are as long as the query is wide, sample after sample,
/// row after row and layer after layer. No cell beyond the sides of the query is
/// laid out. After the last cell of rows 0, 32, 64 and so on in the plane, and of
/// rows 0, 16, 32 and so on of a layer in space, a cancellation is looked for.
pub proof fn law_samples_are_placed_on_their_cells(
    dimension: GraphDimension,
    queries: Seq<ChunkQuery>,
    k: int,
)
    requires
        encoded(queries) is Ok,
        all_of(dimension, queries),
        queries.len() < usize::MAX,
        0 <= k < grids_of(dimension, queries).steps(0).len(),
    ensures
        match grids_of(dimension, queries).steps(0)[k] {
            GridStep::Place { query, x, y, z, index } => {
                &&& query < queries.len()
                &&& match queries[query as int] {
                    ChunkQuery::Grid2D { width, height, .. } => {
                        &&& x < width && y < height && z == 0
                        &&& index == samples_before(queries, query as int) + y * width + x
                        &&& x + 1 == width && y % 32 == 0 ==> k + 1 < grids_of(
                            dimension,
                            queries,
                        ).steps(0).len() && grids_of(dimension, queries).steps(0)[k + 1]
                            == GridStep::Poll
                    },
                    ChunkQuery::Grid3D { width, height, depth, .. } => {
                        &&& x < width && y < height && z < depth
                        &&& index == samples_before(queries, query as int) + (z * height + y)
                            * width + x
                        &&& x + 1 == width && y % 16 == 0 ==> k + 1 < grids_of(
                            dimension,
                            queries,
                        ).steps(0).len() && grids_of(dimension, queries).steps(0)[k + 1]
                            == GridStep::Poll
                    },
                }
            },
            GridStep::Poll => true,
            GridStep::Finished => false,
        },
{
    let grids = grids_of(dimension, queries);
    law_grids_fit(dimension, queries);
    lemma_steps_are_orderly(grids, 0);
    if let GridStep::Place { query, z, y, .. } = grids.steps(0)[k] {
        lemma_own_sides(dimension, queries, query as int);
        lemma_offset_at(queries, query as int);
        assert(0 * grids.height(query as int) == 0);
    }
}

proof fn lemma_found_in_either(first: Seq<GridStep>, second: Seq<GridStep>, step: GridStep)
    requires
        first.contains(step) || second.contains(step),
    ensures
        (first + second).contains(step),
{
    let both = first + second;
    if first.contains(step) {
        let i = choose|i: int| 0 <= i < first.len() && first[i] == step;
        assert(both[i] == step);
    } else {
        let i = choose|i: int| 0 <= i < second.len() && second[i] == step;
        assert(both[first.len() + i] == step);
    }
}

proof fn lemma_cell_in_rows(grids: Grids, query: int, z: int, from: int, y: int, x: int)
    requires
        0 <= from <= y < grids.height(query),
        0 <= x < grids.width(query),
    ensures
        grids.rows(query, z, from).contains(
            GridStep::Place {
                query: query as usize,
                x: x as usize,
                y: y as usize,
                z: z as usize,
                index: grids.cell_index(query, z, y, x) as usize,
            },
        ),
    decreases y - from,
{
    let step = GridStep::Place {
        query: query as usize,
        x: x as usize,
        y: y as usize,
        z: z as usize,
        index: grids.cell_index(query, z, y, x) as usize,
    };
    let row = grids.row(query, z, from, 0);
    let after = grids.rows(query, z, from + 1);
    if from == y {
        assert(row[x] == step);
    } else {
        lemma_cell_in_rows(grids, query, z, from + 1, y, x);
        lemma_found_in_either(grids.check(from), after, step);
    }
    lemma_found_in_either(row, grids.check(from) + after, step);
}

proof fn lemma_cell_in_layers(grids: Grids, query: int, from: int, z: int, y: int, x: int)
    requires
        0 <= from <= z < grids.depth(query),
        0 <= y < grids.height(query),
        0 <= x < grids.width(query),
    ensures
        grids.layers(query, from).contains(
            GridStep::Place {
                query: query as usize,
                x: x as usize,
                y: y as usize,
                z: z as usize,
                index: grids.cell_index(query, z, y, x) as usize,
            },
        ),
    decreases z - from,
{
    let step = GridStep::Place {
        query: query as usize,
        x: x as usize,
        y: y as usize,
        z: z as usize,
        index: grids.cell_index(query, z, y, x) as usize,
    };
    if from == z {
        lemma_cell_in_rows(grids, query, z, 0, y, x);
    } else {
        lemma_cell_in_layers(grids, query, from + 1, z, y, x);
    }
    lemma_found_in_either(grids.rows(query, from, 0), grids.layers(query, from + 1), step);
}

proof fn lemma_cell_in_steps(grids: Grids, from: int, query: int, z: int, y: int, x: int)
    requires
        0 <= from <= query < grids.count(),
        0 <= z < grids.depth(query),
        0 <= y < grids.height(query),
        0 <= x < grids.width(query),
    ensures
        grids.steps(from).contains(
            GridStep::Place {
                query: query as usize,
                x: x as usize,
                y: y as usize,
                z: z as usize,
                index: grids.cell_index(query, z, y, x) as usize,
            },
        ),
    decreases query - from,
{
    let step = GridStep::Place {
        query: query as usize,
        x: x as usize,
        y: y as usize,
        z: z as usize,
        index: grids.cell_index(query, z, y, x) as usize,
    };
    if from == query {
        lemma_cell_in_layers(grids, query, 0, z, y, x);
    } else {
        lemma_cell_in_steps(grids, from + 1, query, z, y, x);
    }
    lemma_found_in_either(grids.layers(from, 0), grids.steps(from + 1), step);
}

/// Every cell of the grid of every query is laid out, as the sample that belongs
/// to it.
pub proof fn law_every_cell_is_placed(
    dimension: GraphDimension,
    queries: Seq<ChunkQuery>,
    query: int,
    z: int,
    y: int,
    x: int,
)
    requires
        encoded(queries) is Ok,
        all_of(dimension, queries),
        0 <= query < queries.len(),
        0 <= z,
        0 <= y,
        0 <= x,
        match queries[query] {
            ChunkQuery::Grid2D { width, height, .. } => x < width && y < height && z < 1,
            ChunkQuery::Grid3D { width, height, depth, .. } => x < width && y < height && z < depth,
        },
    ensures
        grids_of(dimension, queries).steps(0).contains(
            GridStep::Place {
                query: query as usize,
                x: x as usize,
                y: y as usize,
                z: z as usize,
                index: (samples_before(queries, query) + (z * (match queries[query] {
                    ChunkQuery::Grid2D { height, .. } => height,
                    ChunkQuery::Grid3D { height, .. } => height,
                }) + y) * (match queries[query] {
                    ChunkQuery::Grid2D { width, .. } => width,
                    ChunkQuery::Grid3D { width, .. } => width,
                }) + x) as usize,
            },
        ),
{
    let grids = grids_of(dimension, queries);
    law_grids_fit(dimension, queries);
    lemma_own_sides(dimension, queries, query);
    lemma_offset_at(queries, query);
    lemma_cell_in_steps(grids, 0, query, z, y, x);
}

proof fn lemma_rows_len(grids: Grids, query: int, z: int, y: int)
    requires
        0 <= y <= grids.height(query),
    ensures
        grids.rows(query, z, y).len() == (grids.height(query) - y) * grids.width(query) + (
        looks_before(grids.check_every(), grids.height(query) as int) - looks_before(
            grids.check_every(),
            y,
        )),
    decreases grids.height(query) - y,
{
    let width = grids.width(query) as int;
    let height = grids.height(query) as int;
    let every = grids.check_every();
    if y < height {
        lemma_rows_len(grids, query, z, y + 1);
        assert((height - y) * width == (height - (y + 1)) * width + width) by (nonlinear_arith);
        assert(looks_before(every, y + 1) == looks_before(every, y) + grids.check(y).len()) by {
            if every == 32 {
                assert((y + 32) / 32 == (y + 31) / 32 + if y % 32 == 0 {
                    1int
                } else {
                    0int
                });
            } else {
                assert(every == 16);
                assert((y + 16) / 16 == (y + 15) / 16 + if y % 16 == 0 {
                    1int
                } else {
                    0int
                });
            }
        }
    } else {
        assert((height - y) * width == 0) by (nonlinear_arith)
            requires
                height == y,
        ;
    }
}

/// How many multiples of `every` there are below `rows`.
pub open spec fn looks_before(every: nat, rows: int) -> int {
    (rows + every - 1) / (every as int)
}

proof fn lemma_layers_len(grids: Grids, query: int, z: int)
    requires
        0 <= z <= grids.depth(query),
    ensures
        grids.layers(query, z).len() == (grids.depth(query) - z) * (grids.height(query)
            * grids.width(query) + looks_before(grids.check_every(), grids.height(query) as int)),
    decreases grids.depth(query) - z,
{
    let depth = grids.depth(query) as int;
    let layer = grids.height(query) * grids.width(query) + looks_before(
        grids.check_every(),
        grids.height(query) as int,
    );
    if z < depth {
        lemma_layers_len(grids, query, z + 1);
        lemma_rows_len(grids, query, z, 0);
        assert(looks_before(grids.check_every(), 0) == 0) by {
            assert(grids.check_every() == 32 || grids.check_every() == 16);
        }
        assert((depth - z) * layer == (depth - (z + 1)) * layer + layer) by (nonlinear_arith);
    } else {
        assert((depth - z) * layer == 0) by (nonlinear_arith)
            requires
                depth == z,
        ;
    }
}

/// Laying out the grid of a query takes a step for each of its cells and, in each
/// of its layers, a look for a cancellation for every 32 rows that are begun in
/// the plane, and for every 16 in space.
pub proof fn law_grids_take_their_steps(
    dimension: GraphDimension,
    queries: Seq<ChunkQuery>,
    query: int,
)
    requires
        encoded(queries) is Ok,
        all_of(dimension, queries),
        0 <= query < queries.len(),
    ensures
        grids_of(dimension, queries).steps(query).len() == grids_of(dimension, queries).steps(
            query + 1,
        ).len() + match queries[query] {
            ChunkQuery::Grid2D { width, height, .. } => height * width + (height + 31) / 32,
            ChunkQuery::Grid3D { width, height, depth, .. } => depth * (height * width + (height
                + 15) / 16),
        },
        grids_of(dimension, queries).steps(queries.len() as int).len() == 0,
{
    let grids = grids_of(dimension, queries);
    law_grids_fit(dimension, queries);
    lemma_own_sides(dimension, queries, query);
    lemma_layers_len(grids, query, 0);
}

} // verus!

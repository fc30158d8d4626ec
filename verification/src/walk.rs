//! The steps of a running kernel: which sample comes next, and when to look for
//! a cancellation.

use vstd::arithmetic::div_mod::{lemma_fundamental_div_mod, lemma_fundamental_div_mod_converse};
use vstd::prelude::*;

use crate::error::{FastNoiseError, FastNoiseResult};
use crate::model::GraphDimension;
use crate::query::{META_WORDS, total_samples, total_samples_from_offsets};

verus! {

/// A step of a kernel that computes one sample after another.
#[derive(Clone, Copy, Debug, PartialEq, Eq, Structural)]
pub enum SampleStep {
    /// Compute the sample at this index.
    Evaluate(usize),
    /// Find out whether the batch was cancelled.
    Poll,
    /// Nothing is left to do.
    Finished,
}

/// A walk over the samples of a batch.
#[derive(Clone, Copy, Debug, PartialEq, Eq, Structural)]
pub struct SampleWalk {
    len: usize,
    check_every: usize,
    index: usize,
    poll_due: bool,
    awaiting: bool,
}

/// What is left of a walk over `len` samples when the first `from` are done: each
/// sample is computed, and after every `check_every`-th of them, beginning with
/// the first, comes a look for a cancellation.
pub open spec fn sample_steps(len: nat, check_every: nat, from: nat) -> Seq<SampleStep>
    decreases len - from,
{
    if from >= len {
        Seq::empty()
    } else {
        let one = if from % check_every == 0 {
            seq![SampleStep::Evaluate(from as usize), SampleStep::Poll]
        } else {
            seq![SampleStep::Evaluate(from as usize)]
        };
        one + sample_steps(len, check_every, from + 1)
    }
}

impl SampleWalk {
    /// The steps that are left, unless the batch is cancelled.
    pub closed spec fn remaining(self) -> Seq<SampleStep> {
        let rest = sample_steps(self.len as nat, self.check_every as nat, self.index as nat);
        if self.poll_due {
            seq![SampleStep::Poll] + rest
        } else {
            rest
        }
    }

    /// The last step was a look for a cancellation.
    pub closed spec fn is_awaiting(self) -> bool {
        self.awaiting
    }

    pub closed spec fn wf(self) -> bool {
        &&& self.index <= self.len
        &&& self.check_every > 0
    }

    pub fn new(len: usize, check_every: usize) -> (walk: Self)
        requires
            check_every > 0,
        ensures
            walk.wf(),
            walk.remaining() == sample_steps(len as nat, check_every as nat, 0),
            !walk.is_awaiting(),
    {
        SampleWalk { len, check_every, index: 0, poll_due: false, awaiting: false }
    }

    /// The next step. Where the last one was a look for a cancellation,
    /// `cancelled` is what it found.
    pub fn next_step(&mut self, cancelled: bool) -> (step: FastNoiseResult<SampleStep>)
        requires
            old(self).wf(),
        ensures
            final(self).wf(),
            if old(self).is_awaiting() && cancelled {
                &&& step == Err::<SampleStep, FastNoiseError>(FastNoiseError::Cancelled)
                &&& *final(self) == *old(self)
            } else if old(self).remaining().len() == 0 {
                &&& step == Ok::<SampleStep, FastNoiseError>(SampleStep::Finished)
                &&& final(self).remaining() == old(self).remaining()
                &&& !final(self).is_awaiting()
            } else {
                &&& step == Ok::<SampleStep, FastNoiseError>(old(self).remaining()[0])
                &&& final(self).remaining() == old(self).remaining().drop_first()
                &&& final(self).is_awaiting() == (old(self).remaining()[0] is Poll)
            },
    {
        if self.awaiting && cancelled {
            return Err(FastNoiseError::Cancelled);
        }
        let ghost before = self.remaining();
        self.awaiting = false;
        if self.poll_due {
            self.poll_due = false;
            self.awaiting = true;
            assert(self.remaining() =~= before.drop_first());
            return Ok(SampleStep::Poll);
        }
        if self.index >= self.len {
            return Ok(SampleStep::Finished);
        }
        let index = self.index;
        self.poll_due = index % self.check_every == 0;
        self.index = index + 1;
        assert(self.remaining() =~= before.drop_first());
        Ok(SampleStep::Evaluate(index))
    }
}

/// The samples that steps compute, in order.
pub open spec fn evaluated(steps: Seq<SampleStep>) -> Seq<usize>
    decreases steps.len(),
{
    if steps.len() == 0 {
        Seq::empty()
    } else if let SampleStep::Evaluate(index) = steps.last() {
        evaluated(steps.drop_last()).push(index)
    } else {
        evaluated(steps.drop_last())
    }
}

proof fn lemma_evaluated_joins(first: Seq<SampleStep>, second: Seq<SampleStep>)
    ensures
        evaluated(first + second) == evaluated(first) + evaluated(second),
    decreases second.len(),
{
    if second.len() == 0 {
        assert(first + second =~= first);
        assert(evaluated(first) + evaluated(second) =~= evaluated(first));
    } else {
        lemma_evaluated_joins(first, second.drop_last());
        assert((first + second).drop_last() =~= first + second.drop_last());
        assert(evaluated(first + second) =~= evaluated(first) + evaluated(second));
    }
}

proof fn lemma_evaluated_rest(len: nat, check_every: nat, from: nat)
    requires
        from <= len <= usize::MAX,
        check_every > 0,
    ensures
        evaluated(sample_steps(len, check_every, from)) == Seq::new(
            (len - from) as nat,
            |k: int| (from + k) as usize,
        ),
    decreases len - from,
{
    let wanted = Seq::new((len - from) as nat, |k: int| (from + k) as usize);
    if from < len {
        let step = SampleStep::Evaluate(from as usize);
        let one = if from % check_every == 0 {
            seq![step, SampleStep::Poll]
        } else {
            seq![step]
        };
        let rest = sample_steps(len, check_every, from + 1);
        lemma_evaluated_rest(len, check_every, from + 1);
        lemma_evaluated_joins(one, rest);
        assert(seq![step].drop_last() =~= Seq::empty());
        assert(seq![step, SampleStep::Poll].drop_last() =~= seq![step]);
        assert(evaluated(Seq::<SampleStep>::empty()) =~= Seq::empty());
        assert(evaluated(seq![step]) =~= seq![from as usize]);
        assert(evaluated(one) =~= seq![from as usize]);
        assert(evaluated(one) + evaluated(rest) =~= wanted);
    } else {
        assert(wanted =~= Seq::empty());
    }
}

/// A walk over the samples of a batch computes each of them once, from the first
/// to the last.
pub proof fn law_every_sample_is_computed(len: nat, check_every: nat)
    requires
        len <= usize::MAX,
        check_every > 0,
    ensures
        evaluated(sample_steps(len, check_every, 0)) == Seq::new(len, |k: int| k as usize),
{
    lemma_evaluated_rest(len, check_every, 0);
    assert(Seq::new((len - 0) as nat, |k: int| (0 + k) as usize) =~= Seq::new(
        len,
        |k: int| k as usize,
    ));
}

/// A walk looks for a cancellation right after every `check_every`-th sample,
/// beginning with the first, and at no other time.
pub proof fn law_cancellation_is_looked_for(len: nat, check_every: nat, from: nat, k: int)
    requires
        len <= usize::MAX,
        check_every > 0,
        0 <= k < sample_steps(len, check_every, from).len(),
    ensures
        match sample_steps(len, check_every, from)[k] {
            SampleStep::Evaluate(index) => index as nat % check_every == 0 ==> k + 1 < sample_steps(
                len,
                check_every,
                from,
            ).len() && sample_steps(len, check_every, from)[k + 1] is Poll,
            SampleStep::Poll => k > 0 && (sample_steps(len, check_every, from)[k
                - 1] matches SampleStep::Evaluate(index) && index as nat % check_every == 0),
            SampleStep::Finished => false,
        },
    decreases len - from,
{
    if from < len {
        let one: int = if from % check_every == 0 {
            2
        } else {
            1
        };
        let steps = sample_steps(len, check_every, from);
        let rest = sample_steps(len, check_every, from + 1);
        if k >= one {
            law_cancellation_is_looked_for(len, check_every, from + 1, k - one);
            assert(steps[k] == rest[k - one]);
            if k + 1 < steps.len() {
                assert(steps[k + 1] == rest[k + 1 - one]);
            }
            if k > one {
                assert(steps[k - 1] == rest[k - 1 - one]);
            }
        }
    }
}

/// `steps` computes `total` samples, each once and from the first to the last, and
/// looks for a cancellation right after sample `0`, `every`, `2 * every` and so on:
/// sample `i` comes after the samples and the looks that are due before it, and
/// there are no other steps.
pub open spec fn covers(steps: Seq<SampleStep>, total: nat, every: nat) -> bool {
    &&& steps.len() == total + (total + every - 1) / (every as int)
    &&& forall|i: int| #![trigger nth_sample(every, i)]
        0 <= i < total ==> {
            &&& 0 <= nth_sample(every, i) < steps.len()
            &&& steps[nth_sample(every, i)] == SampleStep::Evaluate(i as usize)
            &&& i % (every as int) == 0 ==> nth_sample(every, i) + 1 < steps.len() && steps[nth_sample(
                every,
                i,
            ) + 1] == SampleStep::Poll
        }
}

/// The step at which sample `i` is computed: one look has been taken for each
/// multiple of `every` below `i`.
pub open spec fn nth_sample(every: nat, i: int) -> int {
    i + (i + every - 1) / (every as int)
}

proof fn lemma_next_sample(every: nat, i: int)
    requires
        every > 0,
        0 <= i,
    ensures
        i % (every as int) == 0 ==> nth_sample(every, i + 1) == nth_sample(every, i) + 2,
        i % (every as int) != 0 ==> nth_sample(every, i + 1) == nth_sample(every, i) + 1,
        nth_sample(every, 0) == 0,
        nth_sample(every, i) >= i,
{
    let d = every as int;
    let q = i / d;
    let r = i % d;
    lemma_fundamental_div_mod(i, d);
    assert(i == q * d + r) by (nonlinear_arith)
        requires
            i == d * q + r,
    ;
    assert(0 <= r < d) by (nonlinear_arith)
        requires
            r == i % d,
            d > 0,
    ;
    assert(q >= 0) by (nonlinear_arith)
        requires
            i == q * d + r,
            0 <= r < d,
            0 <= i,
    ;
    assert(i + d == (q + 1) * d + r) by (nonlinear_arith)
        requires
            i == q * d + r,
    ;
    lemma_fundamental_div_mod_converse(i + d, d, q + 1, r);
    if r == 0 {
        lemma_fundamental_div_mod_converse(i + d - 1, d, q, d - 1);
    } else {
        assert(i + d - 1 == (q + 1) * d + (r - 1));
        lemma_fundamental_div_mod_converse(i + d - 1, d, q + 1, r - 1);
    }
    assert(d - 1 == 0 * d + (d - 1));
    lemma_fundamental_div_mod_converse(d - 1, d, 0, d - 1);
}

proof fn lemma_steps_cover(len: nat, every: nat, from: nat)
    requires
        from <= len <= usize::MAX,
        every > 0,
    ensures
        sample_steps(len, every, from).len() == nth_sample(every, len as int) - nth_sample(
            every,
            from as int,
        ),
        forall|i: int| #![trigger nth_sample(every, i)]
            from <= i < len ==> {
                let at = nth_sample(every, i) - nth_sample(every, from as int);
                &&& 0 <= at < sample_steps(len, every, from).len()
                &&& sample_steps(len, every, from)[at] == SampleStep::Evaluate(i as usize)
                &&& i % (every as int) == 0 ==> at + 1 < sample_steps(len, every, from).len()
                    && sample_steps(len, every, from)[at + 1] == SampleStep::Poll
            },
    decreases len - from,
{
    if from < len {
        lemma_steps_cover(len, every, from + 1);
        lemma_next_sample(every, from as int);
        let steps = sample_steps(len, every, from);
        let rest = sample_steps(len, every, from + 1);
        let skip = nth_sample(every, from as int + 1) - nth_sample(every, from as int);
        assert(steps.len() == rest.len() + skip);
        assert forall|i: int| #![trigger nth_sample(every, i)] from <= i < len implies {
            let at = nth_sample(every, i) - nth_sample(every, from as int);
            &&& 0 <= at < steps.len()
            &&& steps[at] == SampleStep::Evaluate(i as usize)
            &&& i % (every as int) == 0 ==> at + 1 < steps.len() && steps[at + 1]
                == SampleStep::Poll
        } by {
            let at = nth_sample(every, i) - nth_sample(every, from as int);
            if i > from {
                let there = nth_sample(every, i) - nth_sample(every, from as int + 1);
                assert(0 <= there < rest.len());
                assert(steps[at] == rest[there]);
                if i % (every as int) == 0 {
                    assert(steps[at + 1] == rest[there + 1]);
                }
            }
        }
    }
}

/// A walk over the samples of a batch covers them.
pub proof fn law_walk_covers_the_samples(len: nat, every: nat)
    requires
        len <= usize::MAX,
        every > 0,
    ensures
        covers(sample_steps(len, every, 0), len, every),
{
    lemma_steps_cover(len, every, 0);
    lemma_next_sample(every, 0);
}

/// In the plane, laying out a grid looks for a cancellation after every so many
/// rows.
pub const GRID_CHECK_EVERY_2D: usize = 32;

/// In space, laying out a grid looks for a cancellation after every so many rows
/// of a layer.
pub const GRID_CHECK_EVERY_3D: usize = 16;

/// A step of laying out the grids of a batch.
#[derive(Clone, Copy, Debug, PartialEq, Eq, Structural)]
pub enum GridStep {
    /// Set the position of the sample at `index`: that of cell `(x, y, z)` of the
    /// grid of query `query`.
    Place { query: usize, x: usize, y: usize, z: usize, index: usize },
    /// Find out whether the batch was cancelled.
    Poll,
    /// Nothing is left to do.
    Finished,
}

/// The grids of a batch.
pub struct Grids {
    pub dimension: GraphDimension,
    pub meta: Seq<u32>,
    pub offsets: Seq<u32>,
    pub query_count: nat,
}

impl Grids {
    /// How many grids there are.
    pub open spec fn count(self) -> nat {
        if self.query_count <= self.offsets.len() {
            self.query_count
        } else {
            self.offsets.len()
        }
    }

    pub open spec fn width(self, query: int) -> nat {
        self.meta[META_WORDS * query] as nat
    }

    pub open spec fn height(self, query: int) -> nat {
        self.meta[META_WORDS * query + 1] as nat
    }

    /// How many layers a grid has; in the plane there is one.
    pub open spec fn depth(self, query: int) -> nat {
        match self.dimension {
            GraphDimension::D2 => 1,
            GraphDimension::D3 => self.meta[META_WORDS * query + 2] as nat,
        }
    }

    /// How many samples a grid has.
    pub open spec fn cells(self, query: int) -> nat {
        self.width(query) * self.height(query) * self.depth(query)
    }

    /// Which sample belongs to a cell.
    pub open spec fn cell_index(self, query: int, z: int, y: int, x: int) -> int {
        self.offsets[query] + (z * self.height(query) + y) * self.width(query) + x
    }

    pub open spec fn check_every(self) -> nat {
        match self.dimension {
            GraphDimension::D2 => GRID_CHECK_EVERY_2D as nat,
            GraphDimension::D3 => GRID_CHECK_EVERY_3D as nat,
        }
    }

    /// The size of every grid is known, and the samples of every grid lie among
    /// those of the batch.
    pub open spec fn fit(self) -> bool {
        forall|query: int| 0 <= query < self.count() ==> #[trigger] self.grid_fits(query)
    }

    pub open spec fn grid_fits(self, query: int) -> bool {
        &&& META_WORDS * query + self.dimension.coordinates() <= self.meta.len()
        &&& self.cells(query) > 0 ==> self.offsets[query] + self.cells(query) <= total_samples(
            self.offsets,
        )
    }

    /// The cells of a row from `x` on.
    pub open spec fn row(self, query: int, z: int, y: int, x: int) -> Seq<GridStep> {
        Seq::new(
            (self.width(query) - x) as nat,
            |k: int| GridStep::Place {
                query: query as usize,
                x: (x + k) as usize,
                y: y as usize,
                z: z as usize,
                index: self.cell_index(query, z, y, x + k) as usize,
            },
        )
    }

    /// A look for a cancellation, where one is due after row `y`.
    pub open spec fn check(self, y: int) -> Seq<GridStep> {
        if y as nat % self.check_every() == 0 {
            seq![GridStep::Poll]
        } else {
            Seq::empty()
        }
    }

    /// The rows of a layer from `y` on.
    pub open spec fn rows(self, query: int, z: int, y: int) -> Seq<GridStep>
        decreases self.height(query) - y,
    {
        if y >= self.height(query) {
            Seq::empty()
        } else {
            self.row(query, z, y, 0) + (self.check(y) + self.rows(query, z, y + 1))
        }
    }

    /// The layers of a grid from `z` on.
    pub open spec fn layers(self, query: int, z: int) -> Seq<GridStep>
        decreases self.depth(query) - z,
    {
        if z >= self.depth(query) {
            Seq::empty()
        } else {
            self.rows(query, z, 0) + self.layers(query, z + 1)
        }
    }

    /// The steps of laying out the grids from `query` on: layer by layer, row by
    /// row and cell by cell.
    pub open spec fn steps(self, query: int) -> Seq<GridStep>
        decreases self.count() - query,
    {
        if query >= self.count() {
            Seq::empty()
        } else {
            self.layers(query, 0) + self.steps(query + 1)
        }
    }

    /// What is left of a layout that has come to cell `x` of row `y` of layer `z`.
    #[verifier::opaque]
    spec fn rest(self, query: int, z: int, y: int, x: int) -> Seq<GridStep> {
        if query >= self.count() {
            Seq::empty()
        } else if z >= self.depth(query) {
            self.steps(query + 1)
        } else if y >= self.height(query) {
            self.layers(query, z + 1) + self.steps(query + 1)
        } else {
            self.row(query, z, y, x) + (self.check(y) + (self.rows(query, z, y + 1) + (self.layers(
                query,
                z + 1,
            ) + self.steps(query + 1))))
        }
    }

    proof fn lemma_query_begins(self, query: int)
        requires
            0 <= query,
        ensures
            self.rest(query, 0, 0, 0) == self.steps(query),
    {
        reveal(Grids::rest);
        if query < self.count() && 0 < self.depth(query) {
            self.lemma_layer_begins(query, 0);
        } else if query < self.count() {
            assert(self.layers(query, 0) + self.steps(query + 1) =~= self.steps(query + 1));
        }
    }

    proof fn lemma_layer_begins(self, query: int, z: int)
        requires
            0 <= query < self.count(),
            0 <= z,
        ensures
            self.rest(query, z, 0, 0) == self.layers(query, z) + self.steps(query + 1),
    {
        reveal(Grids::rest);
        if z < self.depth(query) {
            if 0 < self.height(query) {
                assert(self.rest(query, z, 0, 0) =~= self.layers(query, z) + self.steps(query + 1));
            } else {
                assert(self.layers(query, z) =~= self.layers(query, z + 1));
            }
        } else {
            assert(self.layers(query, z) + self.steps(query + 1) =~= self.steps(query + 1));
        }
    }

    proof fn lemma_nothing_left(self, query: int, z: int, y: int, x: int)
        requires
            query >= self.count(),
        ensures
            self.rest(query, z, y, x).len() == 0,
    {
        reveal(Grids::rest);
    }

    proof fn lemma_query_ends(self, query: int, z: int, y: int, x: int)
        requires
            0 <= query < self.count(),
            z >= self.depth(query),
        ensures
            self.rest(query, z, y, x) == self.rest(query + 1, 0, 0, 0),
    {
        self.lemma_query_begins(query + 1);
        reveal(Grids::rest);
    }

    proof fn lemma_layer_ends(self, query: int, z: int, y: int, x: int)
        requires
            0 <= query < self.count(),
            0 <= z < self.depth(query),
            y >= self.height(query),
        ensures
            self.rest(query, z, y, x) == self.rest(query, z + 1, 0, 0),
    {
        self.lemma_layer_begins(query, z + 1);
        reveal(Grids::rest);
    }

    proof fn lemma_row_ends(self, query: int, z: int, y: int)
        requires
            0 <= query < self.count(),
            0 <= z < self.depth(query),
            0 <= y < self.height(query),
        ensures
            self.rest(query, z, y, self.width(query) as int) == self.check(y) + self.rest(
                query,
                z,
                y + 1,
                0,
            ),
    {
        reveal(Grids::rest);
        let after = self.layers(query, z + 1) + self.steps(query + 1);
        assert(self.row(query, z, y, self.width(query) as int) =~= Seq::empty());
        if y + 1 < self.height(query) {
            assert(self.rows(query, z, y + 1) + after =~= self.rest(query, z, y + 1, 0));
        } else {
            assert(self.rows(query, z, y + 1) + after =~= after);
        }
        assert(self.rest(query, z, y, self.width(query) as int) =~= self.check(y) + self.rest(
            query,
            z,
            y + 1,
            0,
        ));
    }

    proof fn lemma_cell_ends(self, query: int, z: int, y: int, x: int)
        requires
            0 <= query < self.count(),
            0 <= z < self.depth(query),
            0 <= y < self.height(query),
            0 <= x < self.width(query),
        ensures
            self.rest(query, z, y, x) == seq![
                GridStep::Place {
                    query: query as usize,
                    x: x as usize,
                    y: y as usize,
                    z: z as usize,
                    index: self.cell_index(query, z, y, x) as usize,
                },
            ] + self.rest(query, z, y, x + 1),
    {
        reveal(Grids::rest);
        let place = GridStep::Place {
            query: query as usize,
            x: x as usize,
            y: y as usize,
            z: z as usize,
            index: self.cell_index(query, z, y, x) as usize,
        };
        assert(self.row(query, z, y, x) =~= seq![place] + self.row(query, z, y, x + 1));
        assert(self.rest(query, z, y, x) =~= seq![place] + self.rest(query, z, y, x + 1));
    }
}

/// A cell of a grid is one of the cells of the grid.
pub(crate) proof fn lemma_cell_bound(width: int, height: int, depth: int, z: int, y: int, x: int)
    requires
        0 <= x < width,
        0 <= y < height,
        0 <= z < depth,
    ensures
        0 <= z * height,
        0 <= (z * height + y) * width,
        z * height + y <= (z * height + y) * width,
        (z * height + y) * width + x < width * height * depth,
{
    let row = z * height + y;
    assert(0 <= z * height) by (nonlinear_arith)
        requires
            0 <= z,
            0 < height,
    ;
    assert(row <= row * width) by (nonlinear_arith)
        requires
            0 <= row,
            1 <= width,
    ;
    assert(row + 1 <= height * depth) by (nonlinear_arith)
        requires
            row == z * height + y,
            0 <= y < height,
            0 <= z < depth,
    ;
    assert(row * width + width <= width * height * depth) by (nonlinear_arith)
        requires
            row + 1 <= height * depth,
            0 < width,
    ;
}

/// Tells whether the grids of a batch can be laid out.
pub fn grids_fit(dimension: GraphDimension, meta: &[u32], offsets: &[u32], query_count: usize) -> (
fits: bool)
    ensures
        fits == (Grids {
            dimension,
            meta: meta@,
            offsets: offsets@,
            query_count: query_count as nat,
        }).fit(),
{
    let ghost grids = Grids {
        dimension,
        meta: meta@,
        offsets: offsets@,
        query_count: query_count as nat,
    };
    let total = total_samples_from_offsets(offsets);
    let words = meta.len();
    let mut query: usize = 0;
    while query < query_count && query < offsets.len()
        invariant
            grids == (Grids {
                dimension,
                meta: meta@,
                offsets: offsets@,
                query_count: query_count as nat,
            }),
            total == total_samples(offsets@),
            words == meta@.len(),
            query <= grids.count(),
            forall|q: int| 0 <= q < query ==> #[trigger] grids.grid_fits(q),
        decreases grids.count() - query,
    {
        let coordinates: u128 = match dimension {
            GraphDimension::D2 => 2,
            GraphDimension::D3 => 3,
        };
        if META_WORDS as u128 * query as u128 + coordinates > words as u128 {
            assert(!grids.grid_fits(query as int));
            return false;
        }
        let base: usize = META_WORDS * query;
        let width = meta[base];
        let height = meta[base + 1];
        let depth: u32 = match dimension {
            GraphDimension::D2 => 1,
            GraphDimension::D3 => meta[base + 2],
        };
        proof {
            lemma_cells_bound(width, height, depth);
        }
        let cells: u128 = width as u128 * height as u128 * depth as u128;
        if cells > 0 && offsets[query] as u128 + cells > total as u128 {
            assert(!grids.grid_fits(query as int));
            return false;
        }
        assert(grids.grid_fits(query as int));
        query += 1;
    }
    true
}

/// The cells of a grid can be counted.
proof fn lemma_cells_bound(width: u32, height: u32, depth: u32)
    ensures
        0 <= width * height <= u32::MAX * u32::MAX,
        0 <= width * height * depth <= u32::MAX * u32::MAX * u32::MAX,
{
    let layer = width * height;
    assert(0 <= layer <= u32::MAX * u32::MAX) by (nonlinear_arith)
        requires
            layer == width * height,
            width <= u32::MAX,
            height <= u32::MAX,
    ;
    assert(0 <= layer * depth <= u32::MAX * u32::MAX * u32::MAX) by (nonlinear_arith)
        requires
            0 <= layer <= u32::MAX * u32::MAX,
            depth <= u32::MAX,
    ;
}

/// A walk over the cells of the grids of a batch.
#[derive(Clone, Copy, Debug, PartialEq, Eq)]
pub struct GridWalk<'a> {
    dimension: GraphDimension,
    meta: &'a [u32],
    offsets: &'a [u32],
    query_count: usize,
    query: usize,
    z: usize,
    y: usize,
    x: usize,
    awaiting: bool,
}

impl<'a> GridWalk<'a> {
    spec fn grids(self) -> Grids {
        Grids {
            dimension: self.dimension,
            meta: self.meta@,
            offsets: self.offsets@,
            query_count: self.query_count as nat,
        }
    }

    pub closed spec fn wf(self) -> bool {
        &&& self.grids().fit()
        &&& self.query <= self.grids().count()
        &&& self.query < self.grids().count() ==> self.x <= self.grids().width(self.query as int)
    }

    /// The steps that are left, unless the batch is cancelled.
    pub closed spec fn remaining(self) -> Seq<GridStep> {
        self.grids().rest(self.query as int, self.z as int, self.y as int, self.x as int)
    }

    /// The last step was a look for a cancellation.
    pub closed spec fn is_awaiting(self) -> bool {
        self.awaiting
    }

    pub fn new(
        dimension: GraphDimension,
        meta: &'a [u32],
        offsets: &'a [u32],
        query_count: usize,
    ) -> (walk: Self)
        requires
            (Grids {
                dimension,
                meta: meta@,
                offsets: offsets@,
                query_count: query_count as nat,
            }).fit(),
        ensures
            walk.wf(),
            walk.remaining() == (Grids {
                dimension,
                meta: meta@,
                offsets: offsets@,
                query_count: query_count as nat,
            }).steps(0),
            !walk.is_awaiting(),
    {
        let walk = GridWalk {
            dimension,
            meta,
            offsets,
            query_count,
            query: 0,
            z: 0,
            y: 0,
            x: 0,
            awaiting: false,
        };
        proof {
            walk.grids().lemma_query_begins(0);
        }
        walk
    }

    /// Width, height and depth of the grid that the walk is in.
    fn grid_size(&self) -> (size: (usize, usize, usize))
        requires
            self.wf(),
            self.query < self.grids().count(),
        ensures
            size.0 == self.grids().width(self.query as int),
            size.1 == self.grids().height(self.query as int),
            size.2 == self.grids().depth(self.query as int),
    {
        assert(self.grids().grid_fits(self.query as int));
        let words = self.meta.len();
        assert(META_WORDS * self.query + 2 <= words);
        let base: usize = META_WORDS * self.query;
        let depth = match self.dimension {
            GraphDimension::D2 => 1,
            GraphDimension::D3 => self.meta[base + 2] as usize,
        };
        (self.meta[base] as usize, self.meta[base + 1] as usize, depth)
    }

    /// The sample that belongs to the cell that the walk has come to.
    fn cell(&self, width: usize, height: usize) -> (index: usize)
        requires
            self.wf(),
            self.query < self.grids().count(),
            width == self.grids().width(self.query as int),
            height == self.grids().height(self.query as int),
            self.x < width,
            self.y < height,
            self.z < self.grids().depth(self.query as int),
        ensures
            index == self.grids().cell_index(
                self.query as int,
                self.z as int,
                self.y as int,
                self.x as int,
            ),
    {
        proof {
            assert(self.grids().grid_fits(self.query as int));
            lemma_cell_bound(
                width as int,
                height as int,
                self.grids().depth(self.query as int) as int,
                self.z as int,
                self.y as int,
                self.x as int,
            );
        }
        self.offsets[self.query] as usize + (self.z * height + self.y) * width + self.x
    }

    /// The next step. Where the last one was a look for a cancellation,
    /// `cancelled` is what it found.
    pub fn next_step(&mut self, cancelled: bool) -> (step: FastNoiseResult<GridStep>)
        requires
            old(self).wf(),
        ensures
            final(self).wf(),
            if old(self).is_awaiting() && cancelled {
                &&& step == Err::<GridStep, FastNoiseError>(FastNoiseError::Cancelled)
                &&& *final(self) == *old(self)
            } else if old(self).remaining().len() == 0 {
                &&& step == Ok::<GridStep, FastNoiseError>(GridStep::Finished)
                &&& final(self).remaining() == old(self).remaining()
                &&& !final(self).is_awaiting()
            } else {
                &&& step == Ok::<GridStep, FastNoiseError>(old(self).remaining()[0])
                &&& final(self).remaining() == old(self).remaining().drop_first()
                &&& final(self).is_awaiting() == (old(self).remaining()[0] is Poll)
            },
    {
        if self.awaiting && cancelled {
            return Err(FastNoiseError::Cancelled);
        }
        let ghost grids = self.grids();
        let ghost before = self.remaining();
        self.awaiting = false;
        let check_every = match self.dimension {
            GraphDimension::D2 => GRID_CHECK_EVERY_2D,
            GraphDimension::D3 => GRID_CHECK_EVERY_3D,
        };
        while self.query < self.query_count && self.query < self.offsets.len()
            invariant
                self.wf(),
                self.grids() == grids,
                self.remaining() == before,
                !self.awaiting,
                check_every == grids.check_every(),
                !(old(self).is_awaiting() && cancelled),
                before == old(self).remaining(),
            decreases
                    grids.count() - self.query,
                    grids.depth(self.query as int) - self.z,
                    grids.height(self.query as int) - self.y,
        {
            let (width, height, depth) = self.grid_size();
            let (query, z, y, x): (usize, usize, usize, usize) = (
                self.query,
                self.z,
                self.y,
                self.x,
            );
            if z >= depth {
                proof {
                    grids.lemma_query_ends(query as int, z as int, y as int, x as int);
                }
                self.query = query + 1;
                self.z = 0;
                self.y = 0;
                self.x = 0;
            } else if y >= height {
                proof {
                    grids.lemma_layer_ends(query as int, z as int, y as int, x as int);
                }
                self.z = z + 1;
                self.y = 0;
                self.x = 0;
            } else if x < width {
                proof {
                    grids.lemma_cell_ends(query as int, z as int, y as int, x as int);
                }
                let index = self.cell(width, height);
                self.x = x + 1;
                assert(before.drop_first() =~= self.remaining());
                return Ok(GridStep::Place { query, x, y, z, index });
            } else {
                proof {
                    grids.lemma_row_ends(query as int, z as int, y as int);
                }
                self.y = y + 1;
                self.x = 0;
                if y % check_every == 0 {
                    self.awaiting = true;
                    assert(before.drop_first() =~= self.remaining());
                    return Ok(GridStep::Poll);
                }
                assert(before =~= self.remaining());
            }
        }
        proof {
            grids.lemma_nothing_left(
                self.query as int,
                self.z as int,
                self.y as int,
                self.x as int,
            );
        }
        Ok(GridStep::Finished)
    }
}

} // verus!

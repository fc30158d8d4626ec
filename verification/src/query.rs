//! What a batch of queries looks like in the buffers of a plan: the size of each
//! grid, its place in the field, and where its samples lie.

use vstd::prelude::*;

use crate::error::{ErrorView, FastNoiseError, FastNoiseResult, invalid_spec};
use crate::model::{ChunkQuery, FastNoisePlannerMeta, GraphDimension};
use crate::noise::{F32Bits, ONE_BITS, ZERO_BITS};
use crate::text::{append_decimal, decimal};

verus! {

/// How many words a query takes in the buffer of grid sizes.
pub const META_WORDS: usize = 3;

/// How many numbers a query takes in the buffer of grid places.
pub const FLOAT_WORDS: usize = 6;

/// The refusal of a number that does not fit in a word.
pub open spec fn too_large(what: Seq<char>, value: nat) -> ErrorView {
    ErrorView::InvalidSpec(what + " exceeds u32 metadata range: "@ + decimal(value))
}

/// What is wrong with a grid in the plane, if anything is.
pub open spec fn refusal_2d(width: nat, height: nat) -> Option<ErrorView> {
    if width > u32::MAX {
        Some(too_large("query width"@, width))
    } else if height > u32::MAX {
        Some(too_large("query height"@, height))
    } else if width * height > u32::MAX {
        Some(too_large("query sample count"@, width * height))
    } else {
        None
    }
}

/// What is wrong with a grid in space, if anything is.
pub open spec fn refusal_3d(width: nat, height: nat, depth: nat) -> Option<ErrorView> {
    if width > u32::MAX {
        Some(too_large("query width"@, width))
    } else if height > u32::MAX {
        Some(too_large("query height"@, height))
    } else if depth > u32::MAX {
        Some(too_large("query depth"@, depth))
    } else if width * height > u32::MAX {
        Some(too_large("intermediate query sample count"@, width * height))
    } else if width * height * depth > u32::MAX {
        Some(ErrorView::InvalidSpec("query sample count exceeds u32"@))
    } else {
        None
    }
}

impl ChunkQuery {
    pub open spec fn dimension(self) -> GraphDimension {
        match self {
            ChunkQuery::Grid2D { .. } => GraphDimension::D2,
            ChunkQuery::Grid3D { .. } => GraphDimension::D3,
        }
    }

    /// What is wrong with the size of the grid, if anything is.
    pub open spec fn refusal(self) -> Option<ErrorView> {
        match self {
            ChunkQuery::Grid2D { width, height, .. } => refusal_2d(width as nat, height as nat),
            ChunkQuery::Grid3D { width, height, depth, .. } => refusal_3d(
                width as nat,
                height as nat,
                depth as nat,
            ),
        }
    }

    /// How many samples are asked for.
    pub open spec fn samples(self) -> nat {
        match self {
            ChunkQuery::Grid2D { width, height, .. } => width as nat * height as nat,
            ChunkQuery::Grid3D { width, height, depth, .. } => width as nat * height as nat
                * depth as nat,
        }
    }

    /// Width, height and depth of the grid.
    pub open spec fn meta(self) -> Seq<u32> {
        match self {
            ChunkQuery::Grid2D { width, height, .. } => seq![width as u32, height as u32, 1],
            ChunkQuery::Grid3D { width, height, depth, .. } => seq![
                width as u32,
                height as u32,
                depth as u32,
            ],
        }
    }

    /// The place of the first sample, then the step from one sample to the next.
    pub open spec fn floats(self) -> Seq<F32Bits> {
        match self {
            ChunkQuery::Grid2D { origin, step, .. } => seq![
                origin@[0],
                origin@[1],
                F32Bits(ZERO_BITS),
                step@[0],
                step@[1],
                F32Bits(ONE_BITS),
            ],
            ChunkQuery::Grid3D { origin, step, .. } => seq![
                origin@[0],
                origin@[1],
                origin@[2],
                step@[0],
                step@[1],
                step@[2],
            ],
        }
    }
}

/// How many samples the first `count` queries ask for.
pub open spec fn samples_before(queries: Seq<ChunkQuery>, count: int) -> nat
    decreases count,
{
    if count <= 0 {
        0
    } else {
        samples_before(queries, count - 1) + queries[count - 1].samples()
    }
}

/// What is wrong with the first `count` queries, if anything is: with the size of
/// one of them, or with where its samples end.
pub open spec fn batch_refusal(queries: Seq<ChunkQuery>, count: int) -> Option<ErrorView>
    decreases count,
{
    if count <= 0 {
        None
    } else if batch_refusal(queries, count - 1) is Some {
        batch_refusal(queries, count - 1)
    } else if queries[count - 1].refusal() is Some {
        queries[count - 1].refusal()
    } else if samples_before(queries, count) > u32::MAX {
        Some(ErrorView::InvalidSpec("chunk sample offset exceeds u32 metadata range"@))
    } else {
        None
    }
}

/// The buffers that a batch of queries begins with.
#[derive(Debug, PartialEq, Eq)]
pub struct QueryBuffers {
    pub query_count: usize,
    pub meta: Vec<u32>,
    pub floats: Vec<F32Bits>,
    pub offsets: Vec<u32>,
}

/// The value of [`QueryBuffers`].
pub struct BatchView {
    pub query_count: nat,
    pub meta: Seq<u32>,
    pub floats: Seq<F32Bits>,
    pub offsets: Seq<u32>,
}

impl QueryBuffers {
    /// Buffers with nothing in them.
    pub fn new() -> (packet: Self)
        ensures
            packet.query_count == 0,
            packet.meta@.len() == 0,
            packet.floats@.len() == 0,
            packet.offsets@.len() == 0,
    {
        QueryBuffers {
            query_count: 0,
            meta: Vec::new(),
            floats: Vec::new(),
            offsets: Vec::new(),
        }
    }
}

impl View for QueryBuffers {
    type V = BatchView;

    open spec fn view(&self) -> BatchView {
        BatchView {
            query_count: self.query_count as nat,
            meta: self.meta@,
            floats: self.floats@,
            offsets: self.offsets@,
        }
    }
}

/// The buffers of queries with which nothing is wrong.
pub open spec fn batch_of(queries: Seq<ChunkQuery>) -> BatchView {
    BatchView {
        query_count: queries.len(),
        meta: Seq::new(
            queries.len() * META_WORDS as nat,
            |k: int| queries[k / META_WORDS as int].meta()[k % META_WORDS as int],
        ),
        floats: Seq::new(
            queries.len() * FLOAT_WORDS as nat,
            |k: int| queries[k / FLOAT_WORDS as int].floats()[k % FLOAT_WORDS as int],
        ),
        offsets: Seq::new(queries.len() + 1, |k: int| samples_before(queries, k) as u32),
    }
}

/// The buffers of queries, or what is wrong with the first query that something
/// is wrong with.
pub open spec fn encoded(queries: Seq<ChunkQuery>) -> Result<BatchView, ErrorView> {
    match batch_refusal(queries, queries.len() as int) {
        Some(error) => Err(error),
        None => Ok(batch_of(queries)),
    }
}

/// A list brought to the length `len`: what it holds stays, as far as there is
/// room, and `blank` is added where it is too short.
pub open spec fn resized<T>(list: Seq<T>, len: nat, blank: T) -> Seq<T> {
    Seq::new(
        len,
        |k: int|
            if k < list.len() {
                list[k]
            } else {
                blank
            },
    )
}

/// Buffers that held `before`, with room for `queries`, when the sizes and places
/// of the first `words` queries and the ends of the first `ends` are written.
pub open spec fn partly_laid_out(
    before: BatchView,
    queries: Seq<ChunkQuery>,
    words: int,
    ends: int,
) -> BatchView {
    let meta = resized(before.meta, queries.len() * META_WORDS as nat, 0);
    let floats = resized(before.floats, queries.len() * FLOAT_WORDS as nat, F32Bits(ZERO_BITS));
    let offsets = resized(before.offsets, queries.len() + 1, 0);
    BatchView {
        query_count: queries.len(),
        meta: Seq::new(
            meta.len(),
            |k: int|
                if k / META_WORDS as int >= words {
                    meta[k]
                } else {
                    queries[k / META_WORDS as int].meta()[k % META_WORDS as int]
                },
        ),
        floats: Seq::new(
            floats.len(),
            |k: int|
                if k / FLOAT_WORDS as int >= words {
                    floats[k]
                } else {
                    queries[k / FLOAT_WORDS as int].floats()[k % FLOAT_WORDS as int]
                },
        ),
        offsets: Seq::new(
            offsets.len(),
            |k: int|
                if k > ends {
                    offsets[k]
                } else {
                    samples_before(queries, k) as u32
                },
        ),
    }
}

/// How many of the first `count` queries come before the first that is refused.
pub open spec fn accepted(queries: Seq<ChunkQuery>, count: int) -> int
    decreases count,
{
    if count <= 0 {
        0
    } else if batch_refusal(queries, count) is None {
        count
    } else {
        accepted(queries, count - 1)
    }
}

/// Every side of the grid can be held by a word.
pub open spec fn sides_fit(query: ChunkQuery) -> bool {
    match query {
        ChunkQuery::Grid2D { width, height, .. } => width <= u32::MAX && height <= u32::MAX,
        ChunkQuery::Grid3D { width, height, depth, .. } => width <= u32::MAX && height <= u32::MAX
            && depth <= u32::MAX,
    }
}

/// What laying out a batch leaves in buffers that held `before`: all of the
/// queries or, where one is refused, those before it, with the size and the place
/// of the refused one too where only its samples are too many.
pub open spec fn laid_out(before: BatchView, queries: Seq<ChunkQuery>) -> BatchView {
    let count = queries.len() as int;
    let ends = accepted(queries, count);
    let words = if ends < count && sides_fit(queries[ends]) {
        ends + 1
    } else {
        ends
    };
    partly_laid_out(before, queries, words, ends)
}

/// What laying out a batch of a single query leaves in buffers that held
/// `before`: the size and the place of the query in any case, each side of the
/// grid cut to a word, and where its samples end if it is not refused.
pub open spec fn laid_out_alone(before: BatchView, query: ChunkQuery) -> BatchView {
    partly_laid_out(
        before,
        seq![query],
        1,
        if query.refusal() is None {
            1
        } else {
            0
        },
    )
}

/// A side of the grid, a layer of it or the whole of it is too large for a word.
pub open spec fn is_oversize(query: ChunkQuery) -> bool {
    match query {
        ChunkQuery::Grid2D { width, height, .. } => {
            ||| width > u32::MAX
            ||| height > u32::MAX
            ||| width * height > u32::MAX
        },
        ChunkQuery::Grid3D { width, height, depth, .. } => {
            ||| width > u32::MAX
            ||| height > u32::MAX
            ||| depth > u32::MAX
            ||| width * height > u32::MAX
            ||| width * height * depth > u32::MAX
        },
    }
}

/// Every query up to the first that is refused is of the given dimension.
pub open spec fn shapes_match(dimension: GraphDimension, queries: Seq<ChunkQuery>) -> bool {
    forall|i: int|
        0 <= i < queries.len() && batch_refusal(queries, i) is None ==> (
        #[trigger] queries[i]).dimension() == dimension
}

fn refuse_large(what: &str, value: u64) -> (error: FastNoiseError)
    ensures
        error@ == too_large(what@, value as nat),
{
    let mut text = what.to_owned();
    text.append(" exceeds u32 metadata range: ");
    append_decimal(&mut text, value);
    FastNoiseError::InvalidSpec(text)
}

/// A number that fits in a word.
pub fn checked_u32_from_usize(value: usize, field: &str) -> (word: FastNoiseResult<u32>)
    ensures
        match word {
            Ok(word) => word == value,
            Err(error) => value > u32::MAX && error@ == too_large(field@, value as nat),
        },
{
    if value as u64 > u32::MAX as u64 {
        return Err(refuse_large(field, value as u64));
    }
    Ok(value as u32)
}

/// A product that fits in a word.
pub fn checked_mul_u32(left: u32, right: u32, label: &str) -> (word: FastNoiseResult<u32>)
    ensures
        match word {
            Ok(word) => word == left * right,
            Err(error) => left * right > u32::MAX && error@ == too_large(
                label@,
                (left * right) as nat,
            ),
        },
{
    assert(0 <= left * right <= u32::MAX * u32::MAX) by (nonlinear_arith)
        requires
            left <= u32::MAX,
            right <= u32::MAX,
    ;
    let product: u64 = left as u64 * right as u64;
    if product > u32::MAX as u64 {
        return Err(refuse_large(label, product));
    }
    Ok(product as u32)
}

/// How many samples a grid in the plane has.
pub fn sample_count_2d(width: usize, height: usize) -> (count: FastNoiseResult<u32>)
    ensures
        match count {
            Ok(count) => refusal_2d(width as nat, height as nat) is None && count == width * height,
            Err(error) => refusal_2d(width as nat, height as nat) == Some(error@),
        },
{
    let width = checked_u32_from_usize(width, "query width")?;
    let height = checked_u32_from_usize(height, "query height")?;
    checked_mul_u32(width, height, "query sample count")
}

/// How many samples a grid in space has.
pub fn sample_count_3d(width: usize, height: usize, depth: usize) -> (count: FastNoiseResult<u32>)
    ensures
        match count {
            Ok(count) => refusal_3d(width as nat, height as nat, depth as nat) is None && count
                == width * height * depth,
            Err(error) => refusal_3d(width as nat, height as nat, depth as nat) == Some(error@),
        },
{
    let width = checked_u32_from_usize(width, "query width")?;
    let height = checked_u32_from_usize(height, "query height")?;
    let depth = checked_u32_from_usize(depth, "query depth")?;
    let layer = checked_mul_u32(width, height, "intermediate query sample count")?;
    match layer.checked_mul(depth) {
        Some(count) => Ok(count),
        None => Err(invalid_spec("query sample count exceeds u32")),
    }
}

/// Where samples end that begin at `offset`.
pub fn checked_offset_after_add(offset: u64, add: u32) -> (next: FastNoiseResult<u64>)
    ensures
        match next {
            Ok(next) => next == offset + add && next <= u32::MAX,
            Err(error) => if offset + add > u64::MAX {
                error@ == ErrorView::InvalidSpec("chunk sample offset overflowed"@)
            } else {
                &&& offset + add > u32::MAX
                &&& error@ == ErrorView::InvalidSpec(
                    "chunk sample offset exceeds u32 metadata range"@,
                )
            },
        },
{
    match offset.checked_add(add as u64) {
        None => Err(invalid_spec("chunk sample offset overflowed")),
        Some(next) => {
            if next > u32::MAX as u64 {
                return Err(invalid_spec("chunk sample offset exceeds u32 metadata range"));
            }
            Ok(next)
        },
    }
}

/// How many samples a batch has, by where its samples begin and end.
pub open spec fn total_samples(offsets: Seq<u32>) -> nat {
    if offsets.len() == 0 {
        0
    } else {
        offsets.last() as nat
    }
}

pub fn total_samples_from_offsets(offsets: &[u32]) -> (total: usize)
    ensures
        total == total_samples(offsets@),
{
    if offsets.len() == 0 {
        0
    } else {
        offsets[offsets.len() - 1] as usize
    }
}

/// The size and the place of a query as the buffers of a batch hold them.
struct QueryWords {
    meta: [u32; 3],
    floats: [F32Bits; 6],
}

/// The words of a query on a plan of its dimension.
fn query_words(dimension: GraphDimension, query: &ChunkQuery) -> (words: QueryWords)
    requires
        query.dimension() == dimension,
    ensures
        words.meta@ == query.meta(),
        words.floats@ == query.floats(),
{
    match (dimension, query) {
        (GraphDimension::D2, ChunkQuery::Grid2D { width, height, origin, step }) => {
            let meta = [
                #[verifier::truncate] (*width as u32),
                #[verifier::truncate] (*height as u32),
                1,
            ];
            let floats = [
                origin[0],
                origin[1],
                F32Bits(ZERO_BITS),
                step[0],
                step[1],
                F32Bits(ONE_BITS),
            ];
            assert(meta@ =~= query.meta());
            assert(floats@ =~= query.floats());
            QueryWords { meta, floats }
        },
        (GraphDimension::D3, ChunkQuery::Grid3D { width, height, depth, origin, step }) => {
            let meta = [
                #[verifier::truncate] (*width as u32),
                #[verifier::truncate] (*height as u32),
                #[verifier::truncate] (*depth as u32),
            ];
            let floats = [origin[0], origin[1], origin[2], step[0], step[1], step[2]];
            assert(meta@ =~= query.meta());
            assert(floats@ =~= query.floats());
            QueryWords { meta, floats }
        },
        (GraphDimension::D2, ChunkQuery::Grid3D { .. }) => vstd::pervasive::unreached(),
        (GraphDimension::D3, ChunkQuery::Grid2D { .. }) => vstd::pervasive::unreached(),
    }
}

/// Checks that every side of a grid can be held by a word.
fn check_sides(query: &ChunkQuery) -> (checked: FastNoiseResult<()>)
    ensures
        match checked {
            Ok(_) => sides_fit(*query),
            Err(error) => !sides_fit(*query) && query.refusal() == Some(error@),
        },
{
    match query {
        ChunkQuery::Grid2D { width, height, .. } => {
            checked_u32_from_usize(*width, "query width")?;
            checked_u32_from_usize(*height, "query height")?;
        },
        ChunkQuery::Grid3D { width, height, depth, .. } => {
            checked_u32_from_usize(*width, "query width")?;
            checked_u32_from_usize(*height, "query height")?;
            checked_u32_from_usize(*depth, "query depth")?;
        },
    }
    Ok(())
}

/// How many samples a query asks for.
fn count_samples(query: &ChunkQuery) -> (count: FastNoiseResult<u32>)
    ensures
        match count {
            Ok(count) => query.refusal() is None && count == query.samples(),
            Err(error) => query.refusal() == Some(error@),
        },
{
    match query {
        ChunkQuery::Grid2D { width, height, .. } => sample_count_2d(*width, *height),
        ChunkQuery::Grid3D { width, height, depth, .. } => sample_count_3d(*width, *height, *depth),
    }
}

/// Lengthens a list by what `held` holds there, or by `blank` where it ends.
fn push_kept<T: Copy>(list: &mut Vec<T>, held: &Vec<T>, blank: T)
    requires
        old(list)@ == resized(held@, old(list)@.len(), blank),
    ensures
        final(list)@ == resized(held@, old(list)@.len() + 1, blank),
{
    let at = list.len();
    if at < held.len() {
        list.push(held[at]);
    } else {
        list.push(blank);
    }
    assert(list@ =~= resized(held@, old(list)@.len() + 1, blank));
}

impl QueryBuffers {
    /// Makes room for queries.
    fn make_room(&mut self, count: usize)
        ensures
            final(self).query_count == count,
            final(self).meta@ == resized(old(self).meta@, count as nat * META_WORDS as nat, 0),
            final(self).floats@ == resized(
                old(self).floats@,
                count as nat * FLOAT_WORDS as nat,
                F32Bits(ZERO_BITS),
            ),
            final(self).offsets@ == resized(old(self).offsets@, count as nat + 1, 0),
    {
        let mut meta: Vec<u32> = Vec::new();
        let mut floats: Vec<F32Bits> = Vec::new();
        let mut offsets: Vec<u32> = Vec::new();
        let blank = F32Bits(ZERO_BITS);
        assert(meta@ =~= resized(self.meta@, 0, 0));
        assert(floats@ =~= resized(self.floats@, 0, blank));
        assert(offsets@ =~= resized(self.offsets@, 0, 0));
        push_kept(&mut offsets, &self.offsets, 0);
        let mut at: usize = 0;
        while at < count
            invariant
                at <= count,
                blank == F32Bits(ZERO_BITS),
                *self == *old(self),
                meta@.len() == META_WORDS * at,
                meta@ == resized(self.meta@, meta@.len(), 0),
                floats@.len() == FLOAT_WORDS * at,
                floats@ == resized(self.floats@, floats@.len(), blank),
                offsets@.len() == at + 1,
                offsets@ == resized(self.offsets@, offsets@.len(), 0),
            decreases count - at,
        {
            push_kept(&mut meta, &self.meta, 0);
            push_kept(&mut meta, &self.meta, 0);
            push_kept(&mut meta, &self.meta, 0);
            push_kept(&mut floats, &self.floats, blank);
            push_kept(&mut floats, &self.floats, blank);
            push_kept(&mut floats, &self.floats, blank);
            push_kept(&mut floats, &self.floats, blank);
            push_kept(&mut floats, &self.floats, blank);
            push_kept(&mut floats, &self.floats, blank);
            push_kept(&mut offsets, &self.offsets, 0);
            at += 1;
        }
        self.query_count = count;
        self.meta = meta;
        self.floats = floats;
        self.offsets = offsets;
    }

    /// Writes the size and the place of query `at`.
    fn write_words(&mut self, at: usize, words: &QueryWords)
        requires
            META_WORDS * at + META_WORDS <= old(self).meta@.len(),
            FLOAT_WORDS * at + FLOAT_WORDS <= old(self).floats@.len(),
        ensures
            final(self).query_count == old(self).query_count,
            final(self).offsets == old(self).offsets,
            final(self).meta@.len() == old(self).meta@.len(),
            final(self).floats@.len() == old(self).floats@.len(),
            forall|k: int|
                0 <= k < old(self).meta@.len() ==> #[trigger] final(self).meta@[k] == (if META_WORDS
                    * at <= k < META_WORDS * at + META_WORDS {
                    words.meta@[k - META_WORDS * at]
                } else {
                    old(self).meta@[k]
                }),
            forall|k: int|
                0 <= k < old(self).floats@.len() ==> #[trigger] final(self).floats@[k] == (
                if FLOAT_WORDS * at <= k < FLOAT_WORDS * at + FLOAT_WORDS {
                    words.floats@[k - FLOAT_WORDS * at]
                } else {
                    old(self).floats@[k]
                }),
    {
        let room = self.meta.len();
        assert(META_WORDS * at + META_WORDS <= room);
        let base: usize = META_WORDS * at;
        self.meta[base] = words.meta[0];
        self.meta[base + 1] = words.meta[1];
        self.meta[base + 2] = words.meta[2];
        let room = self.floats.len();
        assert(FLOAT_WORDS * at + FLOAT_WORDS <= room);
        let base: usize = FLOAT_WORDS * at;
        self.floats[base] = words.floats[0];
        self.floats[base + 1] = words.floats[1];
        self.floats[base + 2] = words.floats[2];
        self.floats[base + 3] = words.floats[3];
        self.floats[base + 4] = words.floats[4];
        self.floats[base + 5] = words.floats[5];
    }
}

/// A query that is not refused asks for no more samples than a word can count.
proof fn lemma_samples_fit(query: ChunkQuery)
    requires
        query.refusal() is None,
    ensures
        query.samples() <= u32::MAX,
{
}

/// The words of one more query are written.
proof fn lemma_words_written(
    before: BatchView,
    queries: Seq<ChunkQuery>,
    at: int,
    ends: int,
    from: BatchView,
    to: BatchView,
)
    requires
        0 <= at < queries.len(),
        from == partly_laid_out(before, queries, at, ends),
        to.query_count == from.query_count,
        to.offsets == from.offsets,
        to.meta.len() == from.meta.len(),
        to.floats.len() == from.floats.len(),
        forall|k: int|
            0 <= k < from.meta.len() ==> #[trigger] to.meta[k] == (if META_WORDS * at <= k
                < META_WORDS * at + META_WORDS {
                queries[at].meta()[k - META_WORDS * at]
            } else {
                from.meta[k]
            }),
        forall|k: int|
            0 <= k < from.floats.len() ==> #[trigger] to.floats[k] == (if FLOAT_WORDS * at <= k
                < FLOAT_WORDS * at + FLOAT_WORDS {
                queries[at].floats()[k - FLOAT_WORDS * at]
            } else {
                from.floats[k]
            }),
    ensures
        to == partly_laid_out(before, queries, at + 1, ends),
{
    let wanted = partly_laid_out(before, queries, at + 1, ends);
    assert forall|k: int| 0 <= k < to.meta.len() implies #[trigger] to.meta[k]
        == wanted.meta[k] by {
        if META_WORDS * at <= k < META_WORDS * at + META_WORDS {
            assert(k / META_WORDS as int == at && k % META_WORDS as int == k - META_WORDS * at);
        } else {
            assert(k / META_WORDS as int != at);
        }
    }
    assert forall|k: int| 0 <= k < to.floats.len() implies #[trigger] to.floats[k]
        == wanted.floats[k] by {
        if FLOAT_WORDS * at <= k < FLOAT_WORDS * at + FLOAT_WORDS {
            assert(k / FLOAT_WORDS as int == at && k % FLOAT_WORDS as int == k - FLOAT_WORDS * at);
        } else {
            assert(k / FLOAT_WORDS as int != at);
        }
    }
    assert(to.meta =~= wanted.meta);
    assert(to.floats =~= wanted.floats);
}

/// Where the samples of one more query end is written.
proof fn lemma_end_written(before: BatchView, queries: Seq<ChunkQuery>, words: int, ends: int)
    requires
        0 <= ends < queries.len(),
    ensures
        partly_laid_out(before, queries, words, ends).offsets.update(
            ends + 1,
            samples_before(queries, ends + 1) as u32,
        ) == partly_laid_out(before, queries, words, ends + 1).offsets,
        partly_laid_out(before, queries, words, ends).meta == partly_laid_out(
            before,
            queries,
            words,
            ends + 1,
        ).meta,
        partly_laid_out(before, queries, words, ends).floats == partly_laid_out(
            before,
            queries,
            words,
            ends + 1,
        ).floats,
{
    let from = partly_laid_out(before, queries, words, ends);
    let to = partly_laid_out(before, queries, words, ends + 1);
    assert(from.offsets.update(ends + 1, samples_before(queries, ends + 1) as u32) =~= to.offsets);
    assert(from.meta =~= to.meta);
    assert(from.floats =~= to.floats);
}

/// Buffers with room, in which only the first offset is written.
proof fn lemma_layout_begins(before: BatchView, queries: Seq<ChunkQuery>, packet: BatchView)
    requires
        packet.query_count == queries.len(),
        packet.meta == resized(before.meta, queries.len() * META_WORDS as nat, 0),
        packet.floats == resized(
            before.floats,
            queries.len() * FLOAT_WORDS as nat,
            F32Bits(ZERO_BITS),
        ),
        packet.offsets == resized(before.offsets, queries.len() + 1, 0).update(0, 0),
    ensures
        packet == partly_laid_out(before, queries, 0, 0),
{
    let wanted = partly_laid_out(before, queries, 0, 0);
    assert(samples_before(queries, 0) == 0);
    assert(packet.meta =~= wanted.meta);
    assert(packet.floats =~= wanted.floats);
    assert(packet.offsets =~= wanted.offsets);
}

/// Buffers in which everything is written hold the batch.
proof fn lemma_layout_ends(before: BatchView, queries: Seq<ChunkQuery>)
    ensures
        partly_laid_out(before, queries, queries.len() as int, queries.len() as int) == batch_of(
            queries,
        ),
{
    let all = partly_laid_out(before, queries, queries.len() as int, queries.len() as int);
    assert(all.meta =~= batch_of(queries).meta);
    assert(all.floats =~= batch_of(queries).floats);
    assert(all.offsets =~= batch_of(queries).offsets);
}

/// What is wrong with some queries is wrong with more of them.
proof fn lemma_batch_refusal_stays(queries: Seq<ChunkQuery>, few: int, all: int)
    requires
        0 <= few <= all,
        batch_refusal(queries, few) is Some,
    ensures
        batch_refusal(queries, all) == batch_refusal(queries, few),
    decreases all,
{
    if few < all {
        lemma_batch_refusal_stays(queries, few, all - 1);
    }
}

/// The first query that is refused is the one after those that are accepted.
proof fn lemma_accepted(queries: Seq<ChunkQuery>, at: int, count: int)
    requires
        0 <= at <= count,
        batch_refusal(queries, at) is None,
        at < count ==> batch_refusal(queries, at + 1) is Some,
    ensures
        accepted(queries, count) == at,
    decreases count,
{
    if at < count {
        lemma_batch_refusal_stays(queries, at + 1, count);
        lemma_accepted(queries, at, count - 1);
    }
}

/// Lays out a batch of queries in buffers that are made as long as it needs.
pub fn encode_batch(
    planner_meta: &FastNoisePlannerMeta,
    queries: &[ChunkQuery],
    packet: &mut QueryBuffers,
) -> (done: FastNoiseResult<()>)
    requires
        shapes_match(planner_meta.dimension, queries@),
    ensures
        final(packet).query_count == queries@.len(),
        final(packet).meta@.len() == 3 * queries@.len(),
        final(packet).floats@.len() == 6 * queries@.len(),
        final(packet).offsets@.len() == queries@.len() + 1,
        final(packet)@ == laid_out(old(packet)@, queries@),
        match done {
            Ok(_) => encoded(queries@) == Ok::<BatchView, ErrorView>(final(packet)@),
            Err(error) => encoded(queries@) == Err::<BatchView, ErrorView>(error@),
        },
{
    let ghost all = queries@;
    let ghost before = packet@;
    packet.make_room(queries.len());
    let mut cursor: u64 = 0;
    packet.offsets[0] = 0;
    proof {
        lemma_layout_begins(before, all, packet@);
    }
    let mut at: usize = 0;
    while at < queries.len()
        invariant
            at <= queries@.len(),
            all == queries@,
            before == old(packet)@,
            shapes_match(planner_meta.dimension, all),
            batch_refusal(all, at as int) is None,
            packet@ == partly_laid_out(before, all, at as int, at as int),
            cursor == samples_before(all, at as int),
            cursor <= u32::MAX,
        decreases queries@.len() - at,
    {
        let query = &queries[at];
        assert(all[at as int].dimension() == planner_meta.dimension);
        if let Err(error) = check_sides(query) {
            proof {
                lemma_batch_refusal_stays(all, at + 1, all.len() as int);
                lemma_accepted(all, at as int, all.len() as int);
            }
            return Err(error);
        }
        let words = query_words(planner_meta.dimension, query);
        let ghost unwritten = packet@;
        packet.write_words(at, &words);
        proof {
            lemma_words_written(before, all, at as int, at as int, unwritten, packet@);
        }
        let next = match count_samples(query) {
            Err(error) => Err(error),
            Ok(samples) => checked_offset_after_add(cursor, samples),
        };
        match next {
            Err(error) => {
                proof {
                    lemma_batch_refusal_stays(all, at + 1, all.len() as int);
                    lemma_accepted(all, at as int, all.len() as int);
                }
                return Err(error);
            },
            Ok(next) => {
                cursor = next;
            },
        }
        proof {
            lemma_end_written(before, all, at + 1, at as int);
        }
        packet.offsets[at + 1] = cursor as u32;
        at += 1;
    }
    proof {
        lemma_accepted(all, all.len() as int, all.len() as int);
        lemma_layout_ends(before, all);
    }
    Ok(())
}

/// Lays out a batch of a single query.
pub fn encode_one(
    planner_meta: &FastNoisePlannerMeta,
    query: &ChunkQuery,
    packet: &mut QueryBuffers,
) -> (done: FastNoiseResult<()>)
    requires
        query.dimension() == planner_meta.dimension,
    ensures
        final(packet).query_count == 1,
        final(packet).meta@.len() == 3,
        final(packet).floats@.len() == 6,
        final(packet).offsets@.len() == 2,
        final(packet)@ == laid_out_alone(old(packet)@, *query),
        match done {
            Ok(_) => encoded(seq![*query]) == Ok::<BatchView, ErrorView>(final(packet)@),
            Err(error) => encoded(seq![*query]) == Err::<BatchView, ErrorView>(error@),
        },
{
    let ghost all = seq![*query];
    let ghost before = packet@;
    proof {
        assert(batch_refusal(all, 0) is None);
        assert(samples_before(all, 0) == 0);
        assert(samples_before(all, 1) == query.samples());
        assert(batch_refusal(all, 1) == query.refusal()) by {
            if query.refusal() is None {
                lemma_samples_fit(*query);
            }
        }
    }
    packet.make_room(1);
    let words = query_words(planner_meta.dimension, query);
    packet.offsets[0] = 0;
    proof {
        lemma_layout_begins(before, all, packet@);
    }
    let ghost unwritten = packet@;
    packet.write_words(0, &words);
    proof {
        lemma_words_written(before, all, 0, 0, unwritten, packet@);
    }
    let samples = count_samples(query)?;
    proof {
        lemma_end_written(before, all, 1, 0);
        lemma_layout_ends(before, all);
    }
    packet.offsets[1] = samples;
    Ok(())
}

/// The place of the first sample of a query along an axis, and the step from one
/// sample to the next.
pub open spec fn axis_of(floats: Seq<F32Bits>, query: int, axis: int) -> (F32Bits, F32Bits) {
    (floats[FLOAT_WORDS * query + axis], floats[FLOAT_WORDS * query + 3 + axis])
}

pub fn origin_and_step(floats: &[F32Bits], query: usize, axis: usize) -> (found: (F32Bits, F32Bits))
    requires
        axis < 3,
        FLOAT_WORDS * query + 3 + axis < floats@.len(),
    ensures
        found == axis_of(floats@, query as int, axis as int),
{
    let words = floats.len();
    assert(FLOAT_WORDS * query + 3 + axis < words);
    let base: usize = FLOAT_WORDS * query;
    (floats[base + axis], floats[base + 3 + axis])
}

/// Fewer queries of a batch with which nothing is wrong fit as well.
proof fn lemma_batch_fits(queries: Seq<ChunkQuery>, few: int, all: int)
    requires
        0 <= few <= all,
        batch_refusal(queries, all) is None,
    ensures
        batch_refusal(queries, few) is None,
        samples_before(queries, few) <= u32::MAX,
{
    if batch_refusal(queries, few) is Some {
        lemma_batch_refusal_stays(queries, few, all);
    }
}

proof fn lemma_refused_at(queries: Seq<ChunkQuery>, count: int)
    requires
        0 <= count <= queries.len(),
        batch_refusal(queries, count) is Some,
    ensures
        batch_refusal(queries, count)->0 is InvalidSpec,
        exists|i: int|
            0 <= i < count && (is_oversize(#[trigger] queries[i]) || samples_before(queries, i + 1)
                > u32::MAX),
    decreases count,
{
    if count > 0 {
        if batch_refusal(queries, count - 1) is Some {
            lemma_refused_at(queries, count - 1);
            let i = choose|i: int|
                0 <= i < count - 1 && (is_oversize(#[trigger] queries[i]) || samples_before(
                    queries,
                    i + 1,
                ) > u32::MAX);
            assert(is_oversize(queries[i]) || samples_before(queries, i + 1) > u32::MAX);
        } else {
            let last = queries[count - 1];
            assert(is_oversize(last) || samples_before(queries, count) > u32::MAX);
        }
    }
}

/// A batch is refused as an invalid specification if and only if a side, a layer
/// or the whole of some grid is too large for a word, or the samples up to some
/// query are too many for one; it is refused for no other reason.
pub proof fn law_batch_is_refused_for_size(queries: Seq<ChunkQuery>)
    ensures
        encoded(queries) is Err <==> (exists|i: int|
            0 <= i < queries.len() && (is_oversize(#[trigger] queries[i]) || samples_before(
                queries,
                i + 1,
            ) > u32::MAX)),
        encoded(queries) is Err ==> encoded(queries)->Err_0 is InvalidSpec,
{
    let count = queries.len() as int;
    if encoded(queries) is Err {
        lemma_refused_at(queries, count);
    } else {
        assert forall|i: int| 0 <= i < queries.len() implies !(is_oversize(#[trigger] queries[i])
            || samples_before(queries, i + 1) > u32::MAX) by {
            lemma_batch_fits(queries, i + 1, count);
        }
    }
}

/// The samples of a batch lie one query after another: the first begin at zero,
/// those of each query are as many as it asks for and end where the next ones
/// begin, and the last ones end where the batch does.
pub proof fn law_samples_lie_in_a_row(queries: Seq<ChunkQuery>)
    requires
        encoded(queries) is Ok,
    ensures
        batch_of(queries).offsets.len() == queries.len() + 1,
        batch_of(queries).offsets[0] == 0,
        forall|i: int|
            0 <= i < queries.len() ==> batch_of(queries).offsets[i + 1] == batch_of(
                queries,
            ).offsets[i] + (#[trigger] queries[i]).samples(),
        total_samples(batch_of(queries).offsets) == samples_before(queries, queries.len() as int),
{
    let offsets = batch_of(queries).offsets;
    assert(samples_before(queries, 0) == 0);
    assert forall|i: int| 0 <= i < queries.len() implies offsets[i + 1] == offsets[i] + (
    #[trigger] queries[i]).samples() by {
        lemma_batch_fits(queries, i, queries.len() as int);
        lemma_batch_fits(queries, i + 1, queries.len() as int);
    }
    lemma_batch_fits(queries, queries.len() as int, queries.len() as int);
}

/// Word `k` of query `i` in the buffer of grid sizes.
proof fn lemma_meta_word(queries: Seq<ChunkQuery>, i: int, k: int)
    requires
        0 <= i < queries.len(),
        0 <= k < META_WORDS,
    ensures
        META_WORDS * i + k < batch_of(queries).meta.len(),
        batch_of(queries).meta[META_WORDS * i + k] == queries[i].meta()[k],
{
    let at = META_WORDS * i + k;
    assert(at / META_WORDS as int == i && at % META_WORDS as int == k);
}

/// Number `k` of query `i` in the buffer of grid places.
proof fn lemma_float_word(queries: Seq<ChunkQuery>, i: int, k: int)
    requires
        0 <= i < queries.len(),
        0 <= k < FLOAT_WORDS,
    ensures
        FLOAT_WORDS * i + k < batch_of(queries).floats.len(),
        batch_of(queries).floats[FLOAT_WORDS * i + k] == queries[i].floats()[k],
{
    let at = FLOAT_WORDS * i + k;
    assert(at / FLOAT_WORDS as int == i && at % FLOAT_WORDS as int == k);
}

/// The size of a query's grid is found in the buffers of the batch.
pub proof fn law_sizes_read_back(queries: Seq<ChunkQuery>, i: int)
    requires
        encoded(queries) is Ok,
        0 <= i < queries.len(),
    ensures
        META_WORDS * i + META_WORDS <= batch_of(queries).meta.len(),
        match queries[i] {
            ChunkQuery::Grid2D { width, height, .. } => {
                &&& batch_of(queries).meta[META_WORDS * i] == width
                &&& batch_of(queries).meta[META_WORDS * i + 1] == height
                &&& batch_of(queries).meta[META_WORDS * i + 2] == 1
            },
            ChunkQuery::Grid3D { width, height, depth, .. } => {
                &&& batch_of(queries).meta[META_WORDS * i] == width
                &&& batch_of(queries).meta[META_WORDS * i + 1] == height
                &&& batch_of(queries).meta[META_WORDS * i + 2] == depth
            },
        },
{
    lemma_batch_fits(queries, i + 1, queries.len() as int);
    assert(queries[i].refusal() is None);
    lemma_meta_word(queries, i, 0);
    lemma_meta_word(queries, i, 1);
    lemma_meta_word(queries, i, 2);
}

/// The place of a query's grid and the step from sample to sample are found in
/// the buffers of the batch, along every axis.
pub proof fn law_axes_read_back(queries: Seq<ChunkQuery>, i: int, axis: int)
    requires
        encoded(queries) is Ok,
        0 <= i < queries.len(),
        0 <= axis < queries[i].dimension().coordinates(),
    ensures
        FLOAT_WORDS * i + FLOAT_WORDS <= batch_of(queries).floats.len(),
        match queries[i] {
            ChunkQuery::Grid2D { origin, step, .. } => axis_of(batch_of(queries).floats, i, axis)
                == (origin@[axis], step@[axis]),
            ChunkQuery::Grid3D { origin, step, .. } => axis_of(batch_of(queries).floats, i, axis)
                == (origin@[axis], step@[axis]),
        },
{
    lemma_float_word(queries, i, axis);
    lemma_float_word(queries, i, axis + 3);
}

/// The words of a query are the sides of its grid, each cut to a word, with one
/// layer in the plane, then the place of the first sample and the step to the
/// next along each axis; in the plane the third axis begins at zero with a step of
/// one.
pub proof fn law_words_of_a_query(query: ChunkQuery)
    ensures
        query.meta().len() == 3,
        query.floats().len() == 6,
        match query {
            ChunkQuery::Grid2D { width, height, origin, step } => {
                &&& query.dimension() == GraphDimension::D2
                &&& query.meta() == seq![width as u32, height as u32, 1u32]
                &&& query.floats()[0] == origin@[0] && query.floats()[1] == origin@[1]
                &&& query.floats()[2].0 == 0
                &&& query.floats()[3] == step@[0] && query.floats()[4] == step@[1]
                &&& query.floats()[5].0 == 0x3f80_0000
                &&& query.samples() == width * height
            },
            ChunkQuery::Grid3D { width, height, depth, origin, step } => {
                &&& query.dimension() == GraphDimension::D3
                &&& query.meta() == seq![width as u32, height as u32, depth as u32]
                &&& query.floats()[0] == origin@[0] && query.floats()[1] == origin@[1]
                    && query.floats()[2] == origin@[2]
                &&& query.floats()[3] == step@[0] && query.floats()[4] == step@[1]
                    && query.floats()[5] == step@[2]
                &&& query.samples() == width * height * depth
            },
        },
{
}

/// The samples before a query are those of all queries before it.
pub proof fn law_samples_add_up(queries: Seq<ChunkQuery>, i: int)
    requires
        0 <= i < queries.len(),
    ensures
        samples_before(queries, 0) == 0,
        samples_before(queries, i + 1) == samples_before(queries, i) + match queries[i] {
            ChunkQuery::Grid2D { width, height, .. } => width * height,
            ChunkQuery::Grid3D { width, height, depth, .. } => width * height * depth,
        },
{
}

/// A batch that is laid out holds three words and six numbers for each of its
/// queries, and one offset more than it has queries. The words are the sides of
/// the grid, and the samples of a query are as many as its grid has cells.
pub proof fn law_batch_counts_its_queries(queries: Seq<ChunkQuery>, i: int)
    requires
        encoded(queries) is Ok,
        0 <= i < queries.len(),
    ensures
        ({
            let batch = encoded(queries)->Ok_0;
            &&& batch.query_count == queries.len()
            &&& batch.meta.len() == 3 * queries.len()
            &&& batch.floats.len() == 6 * queries.len()
            &&& batch.offsets.len() == queries.len() + 1
            &&& batch.offsets[0] == 0
            &&& match queries[i] {
                ChunkQuery::Grid2D { width, height, .. } => {
                    &&& batch.meta[3 * i] == width && batch.meta[3 * i + 1] == height
                        && batch.meta[3 * i + 2] == 1
                    &&& batch.offsets[i + 1] == batch.offsets[i] + width * height
                },
                ChunkQuery::Grid3D { width, height, depth, .. } => {
                    &&& batch.meta[3 * i] == width && batch.meta[3 * i + 1] == height
                        && batch.meta[3 * i + 2] == depth
                    &&& batch.offsets[i + 1] == batch.offsets[i] + width * height * depth
                },
            }
        }),
{
    law_samples_lie_in_a_row(queries);
    law_sizes_read_back(queries, i);
    assert(batch_of(queries).offsets[i + 1] == batch_of(queries).offsets[i]
        + queries[i].samples());
}

/// The numbers of a query are the place of its first sample and the steps to the
/// next; in the plane the third axis begins at zero with a step of one.
pub proof fn law_batch_places_its_queries(queries: Seq<ChunkQuery>, i: int)
    requires
        encoded(queries) is Ok,
        0 <= i < queries.len(),
    ensures
        ({
            let floats = encoded(queries)->Ok_0.floats;
            match queries[i] {
                ChunkQuery::Grid2D { origin, step, .. } => {
                    &&& floats[6 * i] == origin@[0] && floats[6 * i + 1] == origin@[1]
                    &&& floats[6 * i + 2].0 == 0
                    &&& floats[6 * i + 3] == step@[0] && floats[6 * i + 4] == step@[1]
                    &&& floats[6 * i + 5].0 == 0x3f80_0000
                },
                ChunkQuery::Grid3D { origin, step, .. } => {
                    &&& floats[6 * i] == origin@[0] && floats[6 * i + 1] == origin@[1]
                        && floats[6 * i + 2] == origin@[2]
                    &&& floats[6 * i + 3] == step@[0] && floats[6 * i + 4] == step@[1]
                        && floats[6 * i + 5] == step@[2]
                },
            }
        }),
{
    lemma_float_word(queries, i, 0);
    lemma_float_word(queries, i, 1);
    lemma_float_word(queries, i, 2);
    lemma_float_word(queries, i, 3);
    lemma_float_word(queries, i, 4);
    lemma_float_word(queries, i, 5);
}

proof fn lemma_first_refused(queries: Seq<ChunkQuery>, count: int)
    requires
        0 <= count,
        batch_refusal(queries, count) is Some,
    ensures
        0 <= accepted(queries, count) < count,
        batch_refusal(queries, accepted(queries, count)) is None,
        batch_refusal(queries, accepted(queries, count) + 1) is Some,
        batch_refusal(queries, accepted(queries, count) + 1) == batch_refusal(queries, count),
    decreases count,
{
    if count > 0 {
        assert(accepted(queries, count) == accepted(queries, count - 1));
        if batch_refusal(queries, count - 1) is Some {
            assert(batch_refusal(queries, count) == batch_refusal(queries, count - 1));
            lemma_first_refused(queries, count - 1);
        } else {
            assert(accepted(queries, count - 1) == count - 1);
        }
    }
}

/// A batch that is refused is refused for the first query with which something is
/// wrong. The queries before it are laid out. Of the query itself the size and the
/// place are, where no side of its grid is too large. All other places keep what
/// they held, or are zero where there was nothing.
pub proof fn law_refused_batch_is_laid_out_in_part(
    before: BatchView,
    queries: Seq<ChunkQuery>,
    k: int,
)
    requires
        encoded(queries) is Err,
        0 <= k,
    ensures
        ({
            let after = laid_out(before, queries);
            let refused = accepted(queries, queries.len() as int);
            let written = refused + match queries[refused] {
                ChunkQuery::Grid2D { width, height, .. } => if width <= u32::MAX && height
                    <= u32::MAX {
                    1int
                } else {
                    0int
                },
                ChunkQuery::Grid3D { width, height, depth, .. } => if width <= u32::MAX && height
                    <= u32::MAX && depth <= u32::MAX {
                    1int
                } else {
                    0int
                },
            };
            &&& 0 <= refused < queries.len()
            &&& encoded(queries.take(refused)) is Ok
            &&& encoded(queries.take(refused + 1)) is Err
            &&& after.query_count == queries.len()
            &&& after.meta.len() == 3 * queries.len()
            &&& after.floats.len() == 6 * queries.len()
            &&& after.offsets.len() == queries.len() + 1
            &&& k < 3 * queries.len() ==> after.meta[k] == if k < 3 * written {
                queries[k / 3].meta()[k % 3]
            } else if k < before.meta.len() {
                before.meta[k]
            } else {
                0
            }
            &&& k < 6 * queries.len() ==> after.floats[k] == if k < 6 * written {
                queries[k / 6].floats()[k % 6]
            } else if k < before.floats.len() {
                before.floats[k]
            } else {
                F32Bits(0)
            }
            &&& k <= queries.len() ==> after.offsets[k] == if k <= refused {
                samples_before(queries, k) as u32
            } else if k < before.offsets.len() {
                before.offsets[k]
            } else {
                0
            }
        }),
{
    let refused = accepted(queries, queries.len() as int);
    lemma_first_refused(queries, queries.len() as int);
    lemma_refusal_of_fewer(queries, refused, refused);
    lemma_refusal_of_fewer(queries, refused + 1, refused + 1);
}

proof fn lemma_samples_of_fewer(queries: Seq<ChunkQuery>, few: int, count: int)
    requires
        0 <= count <= few <= queries.len(),
    ensures
        samples_before(queries.take(few), count) == samples_before(queries, count),
    decreases count,
{
    if count > 0 {
        lemma_samples_of_fewer(queries, few, count - 1);
    }
}

proof fn lemma_refusal_of_fewer(queries: Seq<ChunkQuery>, few: int, count: int)
    requires
        0 <= count <= few <= queries.len(),
    ensures
        batch_refusal(queries.take(few), count) == batch_refusal(queries, count),
    decreases count,
{
    if count > 0 {
        lemma_refusal_of_fewer(queries, few, count - 1);
        lemma_samples_of_fewer(queries, few, count);
    }
}

/// A query laid out alone leaves its size and its place, whether or not it is
/// refused, and its end where it is not.
pub proof fn law_single_query_is_laid_out(before: BatchView, query: ChunkQuery)
    ensures
        ({
            let after = laid_out_alone(before, query);
            &&& after.query_count == 1
            &&& after.meta == query.meta()
            &&& after.floats == query.floats()
            &&& after.offsets.len() == 2
            &&& after.offsets[0] == 0
            &&& after.offsets[1] == if query.refusal() is None {
                query.samples() as u32
            } else if before.offsets.len() > 1 {
                before.offsets[1]
            } else {
                0
            }
        }),
{
    let after = laid_out_alone(before, query);
    let all = seq![query];
    assert(samples_before(all, 0) == 0);
    assert(samples_before(all, 1) == query.samples());
    assert(after.meta =~= query.meta());
    assert(after.floats =~= query.floats());
}

/// What is told of a grid that is too large is its first side that is, or else
/// how many samples it has; and how large that is, as far as it can be counted.
pub proof fn law_first_fault_is_told(query: ChunkQuery)
    ensures
        match query {
            ChunkQuery::Grid2D { width, height, .. } => query.refusal() == if width > u32::MAX {
                Some(tells("query width"@, width as nat))
            } else if height > u32::MAX {
                Some(tells("query height"@, height as nat))
            } else if width * height > u32::MAX {
                Some(tells("query sample count"@, (width * height) as nat))
            } else {
                None
            },
            ChunkQuery::Grid3D { width, height, depth, .. } => query.refusal() == if width
                > u32::MAX {
                Some(tells("query width"@, width as nat))
            } else if height > u32::MAX {
                Some(tells("query height"@, height as nat))
            } else if depth > u32::MAX {
                Some(tells("query depth"@, depth as nat))
            } else if width * height > u32::MAX {
                Some(tells("intermediate query sample count"@, (width * height) as nat))
            } else if width * height * depth > u32::MAX {
                Some(ErrorView::InvalidSpec("query sample count exceeds u32"@))
            } else {
                None
            },
        },
{
}

/// A refusal that names what is too large for a word and how large it is.
pub open spec fn tells(what: Seq<char>, value: nat) -> ErrorView {
    ErrorView::InvalidSpec(what + " exceeds u32 metadata range: "@ + decimal(value))
}

/// A batch is refused for the first query with which something is wrong: for the
/// size of its grid, or because the samples up to it are too many.
pub proof fn law_first_refused_query_is_told(queries: Seq<ChunkQuery>)
    requires
        encoded(queries) is Err,
    ensures
        ({
            let refused = accepted(queries, queries.len() as int);
            &&& 0 <= refused < queries.len()
            &&& encoded(queries)->Err_0 == match queries[refused].refusal() {
                Some(error) => error,
                None => ErrorView::InvalidSpec("chunk sample offset exceeds u32 metadata range"@),
            }
        }),
{
    lemma_first_refused(queries, queries.len() as int);
}

/// The samples of a batch are as many as its last offset says, and none where it
/// has no offsets. The place of a query along an axis is found among its first
/// three numbers, and the step among the other three.
pub proof fn law_buffers_are_read_in_place(
    packet: QueryBuffers,
    floats: Seq<F32Bits>,
    offsets: Seq<u32>,
    query: int,
    axis: int,
)
    ensures
        packet@.query_count == packet.query_count,
        packet@.meta == packet.meta@,
        packet@.floats == packet.floats@,
        packet@.offsets == packet.offsets@,
        offsets.len() == 0 ==> total_samples(offsets) == 0,
        offsets.len() > 0 ==> total_samples(offsets) == offsets[offsets.len() - 1],
        axis_of(floats, query, axis).0 == floats[6 * query + axis],
        axis_of(floats, query, axis).1 == floats[6 * query + 3 + axis],
{
}

} // verus!

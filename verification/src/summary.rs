//! What is reported of the samples of a query.

use vstd::prelude::*;

use crate::error::{ErrorView, FastNoiseError, FastNoiseResult, outcome};
use crate::model::ChunkSummary;
use crate::noise::{F32Bits, ZERO_BITS};

verus! {

/// The bit pattern of negative zero, which carries the sign alone.
pub const SIGN_BITS: u32 = 0x8000_0000;

/// The bit pattern of infinity, the largest number.
pub const INFINITY_BITS: u32 = 0x7f80_0000;

/// Where a checksum begins.
pub const CHECKSUM_START: u64 = 0xcbf2_9ce4_8422_2325;

/// What is added to the bits of each sample.
pub const CHECKSUM_SHIFT: u64 = 0x9e37_79b9;

/// By what a checksum is multiplied after each sample.
pub const CHECKSUM_FACTOR: u64 = 0x1000_0000_01b3;

/// How many samples a summary shows.
pub const TAP_COUNT: usize = 8;

/// A number that grows with the value of the bits; both zeros have the same.
pub open spec fn rank(value: F32Bits) -> int {
    if value.0 < SIGN_BITS {
        value.0 as int
    } else {
        SIGN_BITS - value.0
    }
}

/// The bits stand for no number.
pub open spec fn is_nan(value: F32Bits) -> bool {
    rank(value) > INFINITY_BITS || rank(value) < -INFINITY_BITS
}

/// The smaller of two values: the other one where one is no number, the first
/// where both are equal.
pub open spec fn lesser(first: F32Bits, second: F32Bits) -> F32Bits {
    if is_nan(first) {
        second
    } else if is_nan(second) || rank(first) <= rank(second) {
        first
    } else {
        second
    }
}

/// The larger of two values: the other one where one is no number, the first
/// where both are equal.
pub open spec fn greater(first: F32Bits, second: F32Bits) -> F32Bits {
    if is_nan(first) {
        second
    } else if is_nan(second) || rank(first) >= rank(second) {
        first
    } else {
        second
    }
}

/// The smallest of some values.
pub open spec fn least(values: Seq<F32Bits>) -> F32Bits
    decreases values.len(),
{
    if values.len() <= 1 {
        values[0]
    } else {
        lesser(least(values.drop_last()), values.last())
    }
}

/// The largest of some values.
pub open spec fn greatest(values: Seq<F32Bits>) -> F32Bits
    decreases values.len(),
{
    if values.len() <= 1 {
        values[0]
    } else {
        greater(greatest(values.drop_last()), values.last())
    }
}

/// The checksum of some values, over their bits.
pub open spec fn checksum_of(values: Seq<F32Bits>) -> u64
    decreases values.len(),
{
    if values.len() == 0 {
        CHECKSUM_START
    } else {
        (checksum_of(values.drop_last()) ^ (values.last().0 + CHECKSUM_SHIFT) as u64).wrapping_mul(
            CHECKSUM_FACTOR,
        )
    }
}

/// The place of a tap: taps are spread evenly from the first sample to the last.
pub open spec fn tap_place(count: nat, tap: int) -> int {
    tap * (count - 1) / (TAP_COUNT - 1)
}

/// The value of a [`ChunkSummary`].
pub struct SummaryView {
    pub samples: nat,
    pub min: F32Bits,
    pub max: F32Bits,
    pub mean: F32Bits,
    pub checksum: u64,
    pub taps: Seq<F32Bits>,
}

impl View for ChunkSummary {
    type V = SummaryView;

    open spec fn view(&self) -> SummaryView {
        SummaryView {
            samples: self.samples as nat,
            min: self.min,
            max: self.max,
            mean: self.mean,
            checksum: self.checksum,
            taps: self.taps@,
        }
    }
}

/// What is reported of samples whose mean is `mean`; of no samples, zeros.
pub open spec fn summary_of(values: Seq<F32Bits>, mean: F32Bits) -> SummaryView {
    if values.len() == 0 {
        SummaryView {
            samples: 0,
            min: F32Bits(ZERO_BITS),
            max: F32Bits(ZERO_BITS),
            mean: F32Bits(ZERO_BITS),
            checksum: 0,
            taps: Seq::new(TAP_COUNT as nat, |tap: int| F32Bits(ZERO_BITS)),
        }
    } else {
        SummaryView {
            samples: values.len(),
            min: least(values),
            max: greatest(values),
            mean,
            checksum: checksum_of(values),
            taps: Seq::new(TAP_COUNT as nat, |tap: int| values[tap_place(values.len(), tap)]),
        }
    }
}

fn rank_of(value: F32Bits) -> (number: i64)
    ensures
        number == rank(value),
{
    if value.0 < SIGN_BITS {
        value.0 as i64
    } else {
        SIGN_BITS as i64 - value.0 as i64
    }
}

fn stands_for_none(value: F32Bits) -> (none: bool)
    ensures
        none == is_nan(value),
{
    let number = rank_of(value);
    number > INFINITY_BITS as i64 || number < -(INFINITY_BITS as i64)
}

/// The smaller of two values.
pub fn lesser_of(first: F32Bits, second: F32Bits) -> (value: F32Bits)
    ensures
        value == lesser(first, second),
{
    if stands_for_none(first) {
        second
    } else if stands_for_none(second) || rank_of(first) <= rank_of(second) {
        first
    } else {
        second
    }
}

/// The larger of two values.
pub fn greater_of(first: F32Bits, second: F32Bits) -> (value: F32Bits)
    ensures
        value == greater(first, second),
{
    if stands_for_none(first) {
        second
    } else if stands_for_none(second) || rank_of(first) >= rank_of(second) {
        first
    } else {
        second
    }
}

/// Summarizes samples whose mean is `mean`.
pub fn summarize_samples(values: &[F32Bits], mean: F32Bits) -> (summary: ChunkSummary)
    ensures
        summary@ == summary_of(values@, mean),
{
    let zero = F32Bits(ZERO_BITS);
    let mut taps = [zero; TAP_COUNT];
    if values.len() == 0 {
        assert(taps@ =~= summary_of(values@, mean).taps);
        return ChunkSummary { samples: 0, min: zero, max: zero, mean: zero, checksum: 0, taps };
    }
    let mut min = values[0];
    let mut max = values[0];
    let mut checksum: u64 = CHECKSUM_START;
    let mut at: usize = 0;
    assert(checksum_of(values@.take(0)) == CHECKSUM_START);
    while at < values.len()
        invariant
            at <= values@.len(),
            0 < values@.len(),
            at == 0 ==> min == values@[0] && max == values@[0],
            at > 0 ==> min == least(values@.take(at as int)) && max == greatest(
                values@.take(at as int),
            ),
            checksum == checksum_of(values@.take(at as int)),
        decreases values@.len() - at,
    {
        let value = values[at];
        assert(values@.take(at + 1).drop_last() =~= values@.take(at as int));
        assert(values@.take(at + 1).last() == value);
        min = lesser_of(min, value);
        max = greater_of(max, value);
        checksum = (checksum ^ (value.0 as u64 + CHECKSUM_SHIFT)).wrapping_mul(CHECKSUM_FACTOR);
        at += 1;
    }
    assert(values@.take(at as int) =~= values@);
    let count = values.len();
    let mut tap: usize = 0;
    while tap < TAP_COUNT
        invariant
            tap <= TAP_COUNT,
            0 < values@.len(),
            count == values@.len(),
            forall|k: int|
                0 <= k < tap ==> #[trigger] taps@[k] == values@[tap_place(values@.len(), k)],
        decreases TAP_COUNT - tap,
    {
        proof {
            lemma_tap_in_range(values@.len(), tap as int);
        }
        let place = (tap as u128 * (count - 1) as u128 / (TAP_COUNT - 1) as u128) as usize;
        taps[tap] = values[place];
        tap += 1;
    }
    assert(taps@ =~= summary_of(values@, mean).taps);
    ChunkSummary { samples: count, min, max, mean, checksum, taps }
}

proof fn lemma_tap_in_range(count: nat, tap: int)
    requires
        0 < count,
        0 <= tap < TAP_COUNT,
    ensures
        0 <= tap_place(count, tap) < count,
        0 <= tap * (count - 1) <= 7 * (count - 1),
{
    let last = count - 1;
    assert(0 <= tap * last <= 7 * last) by (nonlinear_arith)
        requires
            0 <= tap <= 7,
            0 <= last,
    ;
}

/// The smallest sample is one of the samples, and no sample is smaller. It is no
/// number only where none of the samples is one.
pub proof fn law_least_is_least(values: Seq<F32Bits>, i: int)
    requires
        0 <= i < values.len(),
    ensures
        values.contains(least(values)),
        !is_nan(values[i]) ==> !is_nan(least(values)) && rank(least(values)) <= rank(values[i]),
    decreases values.len(),
{
    if values.len() > 1 {
        let rest = values.drop_last();
        if i < rest.len() {
            law_least_is_least(rest, i);
        } else {
            law_least_is_least(rest, 0);
        }
        let k = choose|k: int| 0 <= k < rest.len() && rest[k] == least(rest);
        assert(values[k] == least(rest));
        assert(values[values.len() - 1] == values.last());
    } else {
        assert(values[0] == least(values));
    }
}

/// The largest sample is one of the samples, and no sample is larger. It is no
/// number only where none of the samples is one.
pub proof fn law_greatest_is_greatest(values: Seq<F32Bits>, i: int)
    requires
        0 <= i < values.len(),
    ensures
        values.contains(greatest(values)),
        !is_nan(values[i]) ==> !is_nan(greatest(values)) && rank(greatest(values)) >= rank(
            values[i],
        ),
    decreases values.len(),
{
    if values.len() > 1 {
        let rest = values.drop_last();
        if i < rest.len() {
            law_greatest_is_greatest(rest, i);
        } else {
            law_greatest_is_greatest(rest, 0);
        }
        let k = choose|k: int| 0 <= k < rest.len() && rest[k] == greatest(rest);
        assert(values[k] == greatest(rest));
        assert(values[values.len() - 1] == values.last());
    } else {
        assert(values[0] == greatest(values));
    }
}

/// Taps go from the first sample to the last, and never back.
pub proof fn law_taps_span_the_samples(count: nat, tap: int)
    requires
        0 < count,
        0 <= tap < TAP_COUNT,
    ensures
        tap_place(count, 0) == 0,
        tap_place(count, TAP_COUNT - 1) == count - 1,
        0 <= tap_place(count, tap) < count,
        tap + 1 < TAP_COUNT ==> tap_place(count, tap) <= tap_place(count, tap + 1),
{
    let last = count - 1;
    lemma_tap_in_range(count, tap);
    assert(tap * last <= (tap + 1) * last) by (nonlinear_arith)
        requires
            0 <= last,
    ;
}

/// Where the samples of a query lie.
#[derive(Clone, Copy, Debug, PartialEq, Eq, Structural)]
pub struct Window {
    pub start: usize,
    pub end: usize,
}

/// Where the samples of query `i` of a batch lie: from where those before end to
/// where they end themselves.
pub open spec fn window_at(offsets: Seq<u32>, i: int) -> Window {
    Window {
        start: if i == 0 {
            0
        } else {
            offsets[i] as usize
        },
        end: offsets[i + 1] as usize,
    }
}

/// How many queries a batch has, by where its samples begin and end.
pub open spec fn window_count(offsets: Seq<u32>) -> nat {
    if offsets.len() == 0 {
        0
    } else {
        (offsets.len() - 1) as nat
    }
}

/// The windows of a batch.
pub fn sample_windows(offsets: &[u32]) -> (windows: Vec<Window>)
    ensures
        windows@ == Seq::new(window_count(offsets@), |i: int| window_at(offsets@, i)),
{
    let mut windows: Vec<Window> = Vec::new();
    let mut start: usize = 0;
    let mut at: usize = 1;
    while at < offsets.len()
        invariant
            1 <= at,
            offsets@.len() == 0 ==> at == 1,
            offsets@.len() > 0 ==> at <= offsets@.len(),
            windows@.len() == at - 1,
            forall|i: int| 0 <= i < at - 1 ==> #[trigger] windows@[i] == window_at(offsets@, i),
            start == (if at == 1 {
                0
            } else {
                offsets@[at - 1] as usize
            }),
        decreases offsets@.len() - at,
    {
        let end = offsets[at] as usize;
        windows.push(Window { start, end });
        start = end;
        at += 1;
    }
    assert(windows@ =~= Seq::new(window_count(offsets@), |i: int| window_at(offsets@, i)));
    windows
}

/// Every window of a batch lies within `len` samples.
pub open spec fn windows_fit(offsets: Seq<u32>, len: nat) -> bool {
    forall|i: int|
        0 <= i < window_count(offsets) ==> (#[trigger] window_at(offsets, i)).start <= window_at(
            offsets,
            i,
        ).end <= len
}

/// The samples that lie in a window.
pub open spec fn samples_in(values: Seq<F32Bits>, window: Window) -> Seq<F32Bits> {
    values.subrange(window.start as int, window.end as int)
}

/// Summarizes each query of a batch; `means` holds the means of their samples.
pub fn decode_batch(values: &[F32Bits], offsets: &[u32], means: &[F32Bits]) -> (summaries: Vec<
    ChunkSummary,
>)
    requires
        windows_fit(offsets@, values@.len()),
        means@.len() == window_count(offsets@),
    ensures
        summaries@.len() == window_count(offsets@),
        forall|i: int|
            0 <= i < summaries@.len() ==> (#[trigger] summaries@[i])@ == summary_of(
                samples_in(values@, window_at(offsets@, i)),
                means@[i],
            ),
{
    let windows = sample_windows(offsets);
    let mut summaries: Vec<ChunkSummary> = Vec::new();
    let mut at: usize = 0;
    while at < windows.len()
        invariant
            windows_fit(offsets@, values@.len()),
            windows@ == Seq::new(window_count(offsets@), |i: int| window_at(offsets@, i)),
            means@.len() == window_count(offsets@),
            at <= windows@.len(),
            summaries@.len() == at,
            forall|i: int|
                0 <= i < at ==> (#[trigger] summaries@[i])@ == summary_of(
                    samples_in(values@, window_at(offsets@, i)),
                    means@[i],
                ),
        decreases windows@.len() - at,
    {
        let window = windows[at];
        assert(window == window_at(offsets@, at as int));
        let part = vstd::slice::slice_subrange(values, window.start, window.end);
        summaries.push(summarize_samples(part, means[at]));
        at += 1;
    }
    summaries
}

/// Where the samples of the first query of a batch lie among `len` samples.
pub open spec fn first_window(offsets: Seq<u32>, len: nat) -> Result<Window, ErrorView> {
    if offsets.len() < 2 {
        Err(ErrorView::Other("missing fastnoise offsets"@))
    } else if offsets[0] > offsets[1] || offsets[1] > len {
        Err(ErrorView::Other("invalid fastnoise offsets"@))
    } else {
        Ok(Window { start: offsets[0] as usize, end: offsets[1] as usize })
    }
}

/// Where the samples of a batch of a single query lie.
pub fn single_window(values: &[F32Bits], offsets: &[u32]) -> (window: FastNoiseResult<Window>)
    ensures
        match window {
            Ok(window) => first_window(offsets@, values@.len()) == Ok::<Window, ErrorView>(window),
            Err(error) => first_window(offsets@, values@.len()) == Err::<Window, ErrorView>(error@),
        },
{
    if offsets.len() < 2 {
        return Err(FastNoiseError::Other("missing fastnoise offsets".to_owned()));
    }
    let end = offsets[1] as usize;
    let start = offsets[0] as usize;
    if values.len() < end || values.len() < start || start > end {
        return Err(FastNoiseError::Other("invalid fastnoise offsets".to_owned()));
    }
    Ok(Window { start, end })
}

/// Summarizes a batch of a single query whose samples have the mean `mean`.
pub fn decode_one(values: &[F32Bits], offsets: &[u32], mean: F32Bits) -> (summary: FastNoiseResult<
    ChunkSummary,
>)
    ensures
        outcome(summary) == (match first_window(offsets@, values@.len()) {
            Err(error) => Err(error),
            Ok(window) => Ok(summary_of(samples_in(values@, window), mean)),
        }),
{
    let window = single_window(values, offsets)?;
    let part = vstd::slice::slice_subrange(values, window.start, window.end);
    Ok(summarize_samples(part, mean))
}

/// The bits are those of a number: zero, a finite number or an infinity.
pub open spec fn is_number(value: F32Bits) -> bool {
    value.0 <= 0x7f80_0000 || 0x8000_0000 <= value.0 <= 0xff80_0000
}

/// Of two numbers, the first is the smaller: among numbers without the sign bit
/// the one with the smaller bits is, among those with it the one with the larger
/// bits, and every number with it is smaller than every one without it, but that
/// both zeros are equal.
pub open spec fn is_below(a: F32Bits, b: F32Bits) -> bool {
    if a.0 < 0x8000_0000 && b.0 < 0x8000_0000 {
        a.0 < b.0
    } else if a.0 >= 0x8000_0000 && b.0 >= 0x8000_0000 {
        a.0 > b.0
    } else {
        a.0 >= 0x8000_0000 && !(a.0 == 0x8000_0000 && b.0 == 0)
    }
}

/// Values are told from what is no number, and put in order, by their bits.
pub proof fn law_order_is_that_of_numbers(a: F32Bits, b: F32Bits)
    ensures
        is_nan(a) <==> !is_number(a),
        is_number(a) && is_number(b) ==> (rank(a) < rank(b) <==> is_below(a, b)),
        is_number(a) && is_number(b) && is_below(b, a) ==> lesser(a, b) == b && greater(a, b) == a,
        is_number(a) && is_number(b) && is_below(a, b) ==> lesser(a, b) == a && greater(a, b) == b,
        is_number(a) && !is_number(b) ==> lesser(a, b) == a && greater(a, b) == a && lesser(b, a)
            == a && greater(b, a) == a,
        lesser(a, b) == a || lesser(a, b) == b,
        greater(a, b) == a || greater(a, b) == b,
{
}

/// The smallest and the largest of the samples that are reported are samples, and
/// as numbers no sample is below the one or above the other. They are no numbers
/// only where no sample is one.
pub proof fn law_summary_bounds_the_samples(values: Seq<F32Bits>, mean: F32Bits, i: int)
    requires
        0 <= i < values.len(),
    ensures
        values.contains(summary_of(values, mean).min),
        values.contains(summary_of(values, mean).max),
        is_number(values[i]) ==> {
            &&& is_number(summary_of(values, mean).min)
            &&& is_number(summary_of(values, mean).max)
            &&& !is_below(values[i], summary_of(values, mean).min)
            &&& !is_below(summary_of(values, mean).max, values[i])
        },
{
    law_least_is_least(values, i);
    law_greatest_is_greatest(values, i);
    law_order_is_that_of_numbers(values[i], least(values));
    law_order_is_that_of_numbers(greatest(values), values[i]);
}

/// A summary tells how many samples there are and what their mean is, and shows
/// eight of them: each stands as far among the samples as its number among the
/// eight says, rounded down.
pub proof fn law_summary_shows_the_samples(values: Seq<F32Bits>, mean: F32Bits, tap: int)
    requires
        values.len() > 0,
        0 <= tap < 8,
    ensures
        summary_of(values, mean).samples == values.len(),
        summary_of(values, mean).mean == mean,
        summary_of(values, mean).taps.len() == 8,
        exists|place: int|
            0 <= place < values.len() && 7 * place <= tap * (values.len() - 1) < 7 * (place + 1)
                && summary_of(values, mean).taps[tap] == #[trigger] values[place],
{
    lemma_tap_in_range(values.len(), tap);
    let place = tap_place(values.len(), tap);
    assert(summary_of(values, mean).taps[tap] == values[place]);
}

/// The checksum of samples depends on each of them, in their order: one more
/// sample mixes its bits into the checksum of those before it.
pub proof fn law_checksum_mixes_every_sample(
    values: Seq<F32Bits>,
    value: F32Bits,
    mean: F32Bits,
    next_mean: F32Bits,
)
    ensures
        summary_of(values.push(value), next_mean).checksum == ((if values.len() == 0 {
            0xcbf2_9ce4_8422_2325u64
        } else {
            summary_of(values, mean).checksum
        }) ^ ((value.0 + 0x9e37_79b9) as u64)).wrapping_mul(0x1000_0000_01b3u64),
{
    assert(values.push(value).drop_last() =~= values);
    assert(values.push(value).last() == value);
    if values.len() == 0 {
        assert(checksum_of(values) == CHECKSUM_START);
    }
}

/// Of no samples nothing but zeros is reported.
pub proof fn law_summary_of_nothing(mean: F32Bits)
    ensures
        ({
            let summary = summary_of(Seq::empty(), mean);
            &&& summary.samples == 0
            &&& summary.min.0 == 0 && summary.max.0 == 0 && summary.mean.0 == 0
            &&& summary.checksum == 0
            &&& summary.taps.len() == 8
            &&& forall|tap: int| 0 <= tap < 8 ==> (#[trigger] summary.taps[tap]).0 == 0
        }),
{
}

/// The samples of a query lie between where those before it end and where its own
/// end, and the first ones begin at the beginning; there is one such window fewer
/// than there are offsets.
pub proof fn law_windows_lie_between_offsets(values: Seq<F32Bits>, offsets: Seq<u32>, i: int, k: int)
    requires
        offsets.len() > 0,
        windows_fit(offsets, values.len()),
        0 <= i < offsets.len() - 1,
        0 <= k < offsets[i + 1] - (if i == 0 {
            0
        } else {
            offsets[i] as int
        }),
    ensures
        window_count(offsets) == offsets.len() - 1,
        samples_in(values, window_at(offsets, i)).len() == offsets[i + 1] - (if i == 0 {
            0
        } else {
            offsets[i] as int
        }),
        samples_in(values, window_at(offsets, i))[k] == values[k + if i == 0 {
            0
        } else {
            offsets[i] as int
        }],
{
    assert(window_at(offsets, i).start <= window_at(offsets, i).end <= values.len());
}

/// A batch of a single query has its samples between its two offsets, which have
/// to be in order and within the samples that there are.
pub proof fn law_single_window_lies_between_offsets(offsets: Seq<u32>, len: nat)
    ensures
        first_window(offsets, len) is Ok <==> offsets.len() >= 2 && offsets[0] <= offsets[1] <= len,
        first_window(offsets, len) matches Ok(window) ==> window.start == offsets[0] && window.end
            == offsets[1],
        first_window(offsets, len) matches Err(error) ==> error is Other,
{
}

/// The value of a summary holds what the summary reports.
pub proof fn law_summary_values_hold_the_summary(summary: ChunkSummary)
    ensures
        summary@.samples == summary.samples,
        summary@.min == summary.min,
        summary@.max == summary.max,
        summary@.mean == summary.mean,
        summary@.checksum == summary.checksum,
        summary@.taps == summary.taps@,
{
}

/// Samples are taken in turn. The first one is both the smallest and the largest;
/// a later one takes the place of the smallest, or the largest, only where it is
/// below, or above, or where that is no number. So of equal samples the first is
/// reported.
pub proof fn law_samples_are_taken_in_turn(
    values: Seq<F32Bits>,
    value: F32Bits,
    mean: F32Bits,
    next_mean: F32Bits,
)
    ensures
        values.len() == 0 ==> summary_of(values.push(value), next_mean).min == value && summary_of(
            values.push(value),
            next_mean,
        ).max == value,
        values.len() > 0 ==> {
            let before = summary_of(values, mean);
            let after = summary_of(values.push(value), next_mean);
            &&& after.min == if !is_number(before.min) || is_number(value) && is_below(
                value,
                before.min,
            ) {
                value
            } else {
                before.min
            }
            &&& after.max == if !is_number(before.max) || is_number(value) && is_below(
                before.max,
                value,
            ) {
                value
            } else {
                before.max
            }
        },
{
    assert(values.push(value).drop_last() =~= values);
    assert(values.push(value).last() == value);
    law_order_is_that_of_numbers(least(values), value);
    law_order_is_that_of_numbers(value, least(values));
    law_order_is_that_of_numbers(greatest(values), value);
    law_order_is_that_of_numbers(value, greatest(values));
}

/// What is told of a single query without a window is that an offset is missing,
/// or that the offsets are not in order or lead behind the samples.
pub proof fn law_missing_window_is_told(offsets: Seq<u32>, len: nat)
    ensures
        offsets.len() < 2 ==> first_window(offsets, len) == Err::<Window, ErrorView>(
            ErrorView::Other("missing fastnoise offsets"@),
        ),
        offsets.len() >= 2 && !(offsets[0] <= offsets[1] <= len) ==> first_window(offsets, len)
            == Err::<Window, ErrorView>(ErrorView::Other("invalid fastnoise offsets"@)),
{
}

} // verus!

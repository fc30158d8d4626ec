//! What the kernels of a plan are told: which buffers they read and write, and
//! with which settings.

use vstd::prelude::*;

use crate::error::{ErrorView, FastNoiseResult, outcome};
use crate::model::{BufferSlot, DispatchHint, FastNoiseKernel, KernelSpec, KernelView, PositionSlots, kind_of};
use crate::noise::{CombineOp, F32Bits, FastNoiseLite, combine_op_of, combine_op_tag, decode_combine_op, encode_combine_op, law_tags_are_bounded, law_tags_are_faithful, unknown_tag};
use crate::payload::{PayloadReader, PayloadWriter, bits, half_at, half_bytes, half_value, lemma_bits_stand, lemma_half_back, lemma_half_stands, lemma_noise_back, lemma_read_bits, lemma_read_noise, lemma_read_noise_is_invalid, lemma_read_slots, lemma_settings_stand, lemma_slots_back, lemma_slots_len, lemma_slots_stand, lemma_stands_alone, lemma_stands_first, lemma_stands_join, lemma_stands_split, lemma_word_back, lemma_word_joins, lemma_word_stands, lemma_words_back, lemma_words_len, noise_words, read_bits, read_noise, read_slots, settings_stand, slots_bytes, stands_at, truncated, word_at, word_bytes, word_value, words_bytes};

verus! {

/// Moves the positions in `source` and leaves them in `output`.
#[derive(Clone, Copy, Debug, PartialEq, Eq)]
pub struct WarpPayload<const N: usize> {
    pub source: PositionSlots<N>,
    pub output: PositionSlots<N>,
    pub noise: FastNoiseLite,
}

/// Samples noise at the positions in `source` and leaves it in `output`.
#[derive(Clone, Copy, Debug, PartialEq, Eq)]
pub struct SamplePayload<const N: usize> {
    pub source: PositionSlots<N>,
    pub output: BufferSlot,
    pub noise: FastNoiseLite,
}

/// Computes a field from the fields in `inputs` and leaves it in `output`.
#[derive(Debug, PartialEq, Eq)]
pub struct CombinePayload {
    pub op: CombineOp,
    pub inputs: Vec<BufferSlot>,
    pub output: BufferSlot,
    pub params: Vec<F32Bits>,
}

/// The value of a payload.
#[allow(inconsistent_fields)]
pub enum PayloadView {
    Warp { source: Seq<BufferSlot>, output: Seq<BufferSlot>, noise: FastNoiseLite },
    Sample { source: Seq<BufferSlot>, output: BufferSlot, noise: FastNoiseLite },
    Combine {
        op: CombineOp,
        inputs: Seq<BufferSlot>,
        output: BufferSlot,
        params: Seq<F32Bits>,
    },
}

impl<const N: usize> View for WarpPayload<N> {
    type V = PayloadView;

    open spec fn view(&self) -> PayloadView {
        PayloadView::Warp {
            source: self.source.coords@,
            output: self.output.coords@,
            noise: self.noise,
        }
    }
}

impl<const N: usize> View for SamplePayload<N> {
    type V = PayloadView;

    open spec fn view(&self) -> PayloadView {
        PayloadView::Sample {
            source: self.source.coords@,
            output: self.output,
            noise: self.noise,
        }
    }
}

impl View for CombinePayload {
    type V = PayloadView;

    open spec fn view(&self) -> PayloadView {
        PayloadView::Combine {
            op: self.op,
            inputs: self.inputs@,
            output: self.output,
            params: self.params@,
        }
    }
}

/// The bytes of a payload.
pub open spec fn payload_bytes(payload: PayloadView) -> Seq<u8> {
    match payload {
        PayloadView::Warp { source, output, noise } => slots_bytes(source) + slots_bytes(output)
            + words_bytes(noise_words(noise)),
        PayloadView::Sample { source, output, noise } => slots_bytes(source) + half_bytes(output.0)
            + words_bytes(noise_words(noise)),
        PayloadView::Combine { op, inputs, output, params } => word_bytes(combine_op_tag(op))
            + word_bytes(inputs.len() as u32) + slots_bytes(inputs) + half_bytes(output.0)
            + word_bytes(params.len() as u32) + words_bytes(bits(params)),
    }
}

/// Reading the payload of a warp of `count` coordinates.
pub open spec fn read_warp(bytes: Seq<u8>, at: int, count: nat) -> (
    Result<PayloadView, ErrorView>,
    int,
) {
    match read_slots(bytes, at, count) {
        (Err(error), stop) => (Err(error), stop),
        (Ok(source), then_output) => match read_slots(bytes, then_output, count) {
            (Err(error), stop) => (Err(error), stop),
            (Ok(output), then_noise) => match read_noise(bytes, then_noise) {
                (Err(error), stop) => (Err(error), stop),
                (Ok(noise), stop) => (Ok(PayloadView::Warp { source, output, noise }), stop),
            },
        },
    }
}

/// Reading the payload of a sampling at positions of `count` coordinates.
pub open spec fn read_sample(bytes: Seq<u8>, at: int, count: nat) -> (
    Result<PayloadView, ErrorView>,
    int,
) {
    match read_slots(bytes, at, count) {
        (Err(error), stop) => (Err(error), stop),
        (Ok(source), then_output) => if then_output + 2 > bytes.len() {
            (Err(truncated()), then_output)
        } else {
            match read_noise(bytes, then_output + 2) {
                (Err(error), stop) => (Err(error), stop),
                (Ok(noise), stop) => (
                    Ok(
                        PayloadView::Sample {
                            source,
                            output: BufferSlot(half_at(bytes, then_output)),
                            noise,
                        },
                    ),
                    stop,
                ),
            }
        },
    }
}

/// Reading the payload of a combination.
pub open spec fn read_combine(bytes: Seq<u8>, at: int) -> (Result<PayloadView, ErrorView>, int) {
    let tag = word_at(bytes, at);
    if at + 4 > bytes.len() {
        (Err(truncated()), at)
    } else if combine_op_of(tag) is None {
        (Err(unknown_tag("combine op tag"@, tag)), at + 4)
    } else if at + 8 > bytes.len() {
        (Err(truncated()), at + 4)
    } else {
        match read_slots(bytes, at + 8, word_at(bytes, at + 4) as nat) {
            (Err(error), stop) => (Err(error), stop),
            (Ok(inputs), then_output) => if then_output + 2 > bytes.len() {
                (Err(truncated()), then_output)
            } else if then_output + 6 > bytes.len() {
                (Err(truncated()), then_output + 2)
            } else {
                match read_bits(bytes, then_output + 6, word_at(bytes, then_output + 2) as nat) {
                    (Err(error), stop) => (Err(error), stop),
                    (Ok(params), stop) => (
                        Ok(
                            PayloadView::Combine {
                                op: combine_op_of(tag)->0,
                                inputs,
                                output: BufferSlot(half_at(bytes, then_output)),
                                params,
                            },
                        ),
                        stop,
                    ),
                }
            },
        }
    }
}

/// Reading the payload of a kernel that has one.
pub open spec fn read_payload(kernel: FastNoiseKernel, bytes: Seq<u8>, at: int) -> (
    Result<PayloadView, ErrorView>,
    int,
) {
    match kernel {
        FastNoiseKernel::Warp2d => read_warp(bytes, at, 2),
        FastNoiseKernel::Warp3d => read_warp(bytes, at, 3),
        FastNoiseKernel::Sample2d => read_sample(bytes, at, 2),
        FastNoiseKernel::Sample3d => read_sample(bytes, at, 3),
        FastNoiseKernel::Combine => read_combine(bytes, at),
        FastNoiseKernel::InitGrid2d | FastNoiseKernel::InitGrid3d => arbitrary(),
    }
}

/// The kernel of a plan that is told `payload`.
pub open spec fn kernel_with(kernel: FastNoiseKernel, payload: PayloadView) -> KernelView {
    KernelView {
        kind_id: kind_of(kernel),
        payload: payload_bytes(payload),
        bindings: Seq::empty(),
        dispatch: DispatchHint::WholeBatch,
    }
}

/// Memory that the planner uses again from one payload to the next.
#[derive(Debug)]
pub struct PlannerScratch {
    pub bytes: Vec<u8>,
}

impl PlannerScratch {
    pub fn new() -> (scratch: Self)
        ensures
            scratch.bytes@.len() == 0,
    {
        PlannerScratch { bytes: Vec::new() }
    }

    pub fn reset(&mut self)
        ensures
            final(self).bytes@.len() == 0,
    {
        self.bytes.clear();
    }
}

/// A payload of one of the kernels.
pub trait KernelPayload: Sized + View<V = PayloadView> {
    /// The kernel that takes such payloads.
    spec fn kernel() -> FastNoiseKernel;

    fn kind(&self) -> (kernel: FastNoiseKernel)
        ensures
            kernel == Self::kernel(),
    ;

    /// Writes the bytes of the payload.
    fn encode_into(&self, writer: &mut PayloadWriter<'_>) -> (written: FastNoiseResult<()>)
        ensures
            written is Ok,
            final(writer).bytes@ == old(writer).bytes@ + payload_bytes(self@),
            *final(final(writer).bytes) == *final(old(writer).bytes),
    ;

    /// Reads a payload.
    fn decode_from(kind: FastNoiseKernel, reader: &mut PayloadReader<'_>) -> (read: FastNoiseResult<
        Self,
    >)
        requires
            old(reader).wf(),
        ensures
            final(reader).wf(),
            final(reader).bytes == old(reader).bytes,
            (outcome(read), final(reader).offset as int) == read_payload(
                Self::kernel(),
                old(reader).bytes@,
                old(reader).offset as int,
            ),
    ;

    /// The kernel of a plan that is told this payload.
    fn encode(&self, scratch: &mut PlannerScratch) -> (kernel: FastNoiseResult<KernelSpec>)
        ensures
            outcome(kernel) == Ok::<KernelView, ErrorView>(kernel_with(Self::kernel(), self@)),
            final(scratch).bytes@.len() == 0,
    {
        scratch.reset();
        let mut writer = PayloadWriter::new(&mut scratch.bytes);
        self.encode_into(&mut writer)?;
        let mut payload: Vec<u8> = Vec::new();
        std::mem::swap(&mut payload, &mut scratch.bytes);
        let kernel = KernelSpec {
            kind_id: self.kind().kind(),
            payload,
            bindings: Vec::new(),
            dispatch: DispatchHint::WholeBatch,
        };
        assert(kernel@.payload =~= payload_bytes(self@));
        Ok(kernel)
    }

    /// The payload at the beginning of `bytes`.
    fn decode(kind: FastNoiseKernel, bytes: &[u8]) -> (read: FastNoiseResult<Self>)
        ensures
            outcome(read) == read_payload(Self::kernel(), bytes@, 0).0,
    {
        let mut reader = PayloadReader::new(bytes);
        Self::decode_from(kind, &mut reader)
    }
}

fn write_position_slots<const N: usize>(writer: &mut PayloadWriter<'_>, slots: &PositionSlots<N>)
    ensures
        final(writer).bytes@ == old(writer).bytes@ + slots_bytes(slots.coords@),
        *final(final(writer).bytes) == *final(old(writer).bytes),
{
    let ghost before = writer.bytes@;
    let ghost list = slots.coords@;
    let mut i: usize = 0;
    assert(before + slots_bytes(list.take(0)) =~= before);
    while i < N
        invariant
            i <= N,
            list == slots.coords@,
            list.len() == N,
            writer.bytes@ == before + slots_bytes(list.take(i as int)),
            *final(writer.bytes) == *final(old(writer).bytes),
        decreases N - i,
    {
        writer.slot(slots.coords[i]);
        proof {
            lemma_slot_joins(before, list, i as int, writer.bytes@);
        }
        i += 1;
    }
    assert(list.take(N as int) =~= list);
}

/// A slot written behind the first `k` slots makes `k + 1` slots.
proof fn lemma_slot_joins(before: Seq<u8>, slots: Seq<BufferSlot>, k: int, now: Seq<u8>)
    requires
        0 <= k < slots.len(),
        now == before + slots_bytes(slots.take(k)) + half_bytes(slots[k].0),
    ensures
        now == before + slots_bytes(slots.take(k + 1)),
{
    assert(slots.take(k + 1).drop_last() =~= slots.take(k));
    assert(now =~= before + (slots_bytes(slots.take(k)) + half_bytes(slots[k].0)));
}

pub fn read_position_slots<const N: usize>(reader: &mut PayloadReader<'_>) -> (read:
    FastNoiseResult<PositionSlots<N>>)
    requires
        old(reader).wf(),
    ensures
        final(reader).wf(),
        final(reader).bytes == old(reader).bytes,
        ({
            let (expected, stop) = read_slots(
                old(reader).bytes@,
                old(reader).offset as int,
                N as nat,
            );
            &&& final(reader).offset == stop
            &&& match read {
                Ok(slots) => expected == Ok::<Seq<BufferSlot>, ErrorView>(slots.coords@),
                Err(error) => expected == Err::<Seq<BufferSlot>, ErrorView>(error@),
            }
        }),
{
    let ghost bytes = reader.bytes@;
    let ghost at = reader.offset as int;
    let mut coords = [BufferSlot(0); N];
    let mut i: usize = 0;
    while i < N
        invariant
            i <= N,
            reader.wf(),
            reader.bytes == old(reader).bytes,
            bytes == reader.bytes@,
            reader.offset == at + 2 * i,
            at == old(reader).offset,
            forall|j: int| 0 <= j < i ==> coords@[j] == BufferSlot(half_at(bytes, at + 2 * j)),
        decreases N - i,
    {
        let slot = reader.slot()?;
        coords[i] = slot;
        i += 1;
    }
    assert(coords@ =~= Seq::new(N as nat, |j: int| BufferSlot(half_at(bytes, at + 2 * j))));
    Ok(PositionSlots { coords })
}

impl KernelPayload for WarpPayload<2> {
    open spec fn kernel() -> FastNoiseKernel {
        FastNoiseKernel::Warp2d
    }

    fn kind(&self) -> (kernel: FastNoiseKernel) {
        FastNoiseKernel::Warp2d
    }

    fn encode_into(&self, writer: &mut PayloadWriter<'_>) -> (written: FastNoiseResult<()>) {
        let ghost before = writer.bytes@;
        write_position_slots(writer, &self.source);
        write_position_slots(writer, &self.output);
        writer.noise(&self.noise);
        assert(writer.bytes@ =~= before + payload_bytes(self@));
        Ok(())
    }

    fn decode_from(kind: FastNoiseKernel, reader: &mut PayloadReader<'_>) -> (read: FastNoiseResult<
        Self,
    >) {
        let source = read_position_slots::<2>(reader)?;
        let output = read_position_slots::<2>(reader)?;
        let noise = reader.noise()?;
        Ok(WarpPayload { source, output, noise })
    }
}

impl KernelPayload for WarpPayload<3> {
    open spec fn kernel() -> FastNoiseKernel {
        FastNoiseKernel::Warp3d
    }

    fn kind(&self) -> (kernel: FastNoiseKernel) {
        FastNoiseKernel::Warp3d
    }

    fn encode_into(&self, writer: &mut PayloadWriter<'_>) -> (written: FastNoiseResult<()>) {
        let ghost before = writer.bytes@;
        write_position_slots(writer, &self.source);
        write_position_slots(writer, &self.output);
        writer.noise(&self.noise);
        assert(writer.bytes@ =~= before + payload_bytes(self@));
        Ok(())
    }

    fn decode_from(kind: FastNoiseKernel, reader: &mut PayloadReader<'_>) -> (read: FastNoiseResult<
        Self,
    >) {
        let source = read_position_slots::<3>(reader)?;
        let output = read_position_slots::<3>(reader)?;
        let noise = reader.noise()?;
        Ok(WarpPayload { source, output, noise })
    }
}

impl KernelPayload for SamplePayload<2> {
    open spec fn kernel() -> FastNoiseKernel {
        FastNoiseKernel::Sample2d
    }

    fn kind(&self) -> (kernel: FastNoiseKernel) {
        FastNoiseKernel::Sample2d
    }

    fn encode_into(&self, writer: &mut PayloadWriter<'_>) -> (written: FastNoiseResult<()>) {
        let ghost before = writer.bytes@;
        write_position_slots(writer, &self.source);
        writer.slot(self.output);
        writer.noise(&self.noise);
        assert(writer.bytes@ =~= before + payload_bytes(self@));
        Ok(())
    }

    fn decode_from(kind: FastNoiseKernel, reader: &mut PayloadReader<'_>) -> (read: FastNoiseResult<
        Self,
    >) {
        let source = read_position_slots::<2>(reader)?;
        let output = reader.slot()?;
        let noise = reader.noise()?;
        Ok(SamplePayload { source, output, noise })
    }
}

impl KernelPayload for SamplePayload<3> {
    open spec fn kernel() -> FastNoiseKernel {
        FastNoiseKernel::Sample3d
    }

    fn kind(&self) -> (kernel: FastNoiseKernel) {
        FastNoiseKernel::Sample3d
    }

    fn encode_into(&self, writer: &mut PayloadWriter<'_>) -> (written: FastNoiseResult<()>) {
        let ghost before = writer.bytes@;
        write_position_slots(writer, &self.source);
        writer.slot(self.output);
        writer.noise(&self.noise);
        assert(writer.bytes@ =~= before + payload_bytes(self@));
        Ok(())
    }

    fn decode_from(kind: FastNoiseKernel, reader: &mut PayloadReader<'_>) -> (read: FastNoiseResult<
        Self,
    >) {
        let source = read_position_slots::<3>(reader)?;
        let output = reader.slot()?;
        let noise = reader.noise()?;
        Ok(SamplePayload { source, output, noise })
    }
}

/// A count as it stands in a payload: its low 32 bits.
fn count_word(count: usize) -> (word: u32)
    ensures
        word == count as nat as u32,
{
    count as u32
}

impl KernelPayload for CombinePayload {
    open spec fn kernel() -> FastNoiseKernel {
        FastNoiseKernel::Combine
    }

    fn kind(&self) -> (kernel: FastNoiseKernel) {
        FastNoiseKernel::Combine
    }

    fn encode_into(&self, writer: &mut PayloadWriter<'_>) -> (written: FastNoiseResult<()>) {
        let ghost before = writer.bytes@;
        writer.u32(encode_combine_op(self.op));
        writer.u32(count_word(self.inputs.len()));
        let ghost then_inputs = writer.bytes@;
        let mut i: usize = 0;
        assert(then_inputs + slots_bytes(self.inputs@.take(0)) =~= then_inputs);
        while i < self.inputs.len()
            invariant
                i <= self.inputs@.len(),
                writer.bytes@ == then_inputs + slots_bytes(self.inputs@.take(i as int)),
                *final(writer.bytes) == *final(old(writer).bytes),
            decreases self.inputs@.len() - i,
        {
            writer.slot(self.inputs[i]);
            proof {
                lemma_slot_joins(then_inputs, self.inputs@, i as int, writer.bytes@);
            }
            i += 1;
        }
        assert(self.inputs@.take(i as int) =~= self.inputs@);
        writer.slot(self.output);
        writer.u32(count_word(self.params.len()));
        let ghost then_params = writer.bytes@;
        let ghost words = bits(self.params@);
        let mut k: usize = 0;
        assert(then_params + words_bytes(words.take(0)) =~= then_params);
        while k < self.params.len()
            invariant
                k <= self.params@.len(),
                words == bits(self.params@),
                writer.bytes@ == then_params + words_bytes(words.take(k as int)),
                *final(writer.bytes) == *final(old(writer).bytes),
            decreases self.params@.len() - k,
        {
            writer.f32_bits(self.params[k]);
            proof {
                lemma_word_joins(then_params, words, k as int, writer.bytes@);
            }
            k += 1;
        }
        assert(words.take(k as int) =~= words);
        assert(writer.bytes@ =~= before + payload_bytes(self@));
        Ok(())
    }

    fn decode_from(kind: FastNoiseKernel, reader: &mut PayloadReader<'_>) -> (read: FastNoiseResult<
        Self,
    >) {
        let ghost bytes = reader.bytes@;
        let ghost at = reader.offset as int;
        let op = decode_combine_op(reader.u32()?)?;
        let input_count = reader.u32()?;
        let mut inputs: Vec<BufferSlot> = Vec::new();
        let mut i: u32 = 0;
        while i < input_count
            invariant
                i <= input_count,
                reader.wf(),
                reader.bytes == old(reader).bytes,
                bytes == reader.bytes@,
                at == old(reader).offset,
                at + 8 <= bytes.len(),
                input_count == word_at(bytes, at + 4),
                combine_op_of(word_at(bytes, at)) == Some(op),
                reader.offset == at + 8 + 2 * i,
                inputs@.len() == i,
                forall|j: int|
                    0 <= j < i ==> #[trigger] inputs@[j] == BufferSlot(
                        half_at(bytes, at + 8 + 2 * j),
                    ),
            decreases input_count - i,
        {
            let slot = reader.slot()?;
            inputs.push(slot);
            i += 1;
        }
        assert(inputs@ =~= Seq::new(
            input_count as nat,
            |j: int| BufferSlot(half_at(bytes, at + 8 + 2 * j)),
        ));
        let ghost then_output = reader.offset as int;
        let output = reader.slot()?;
        let param_count = reader.u32()?;
        let ghost then_params = reader.offset as int;
        let mut params: Vec<F32Bits> = Vec::new();
        let mut k: u32 = 0;
        while k < param_count
            invariant
                k <= param_count,
                reader.wf(),
                reader.bytes == old(reader).bytes,
                bytes == reader.bytes@,
                at == old(reader).offset,
                at + 8 <= bytes.len(),
                combine_op_of(word_at(bytes, at)) == Some(op),
                read_slots(bytes, at + 8, word_at(bytes, at + 4) as nat) == (
                    Ok::<Seq<BufferSlot>, ErrorView>(inputs@),
                    then_output,
                ),
                then_params == then_output + 6,
                then_params <= bytes.len(),
                output == BufferSlot(half_at(bytes, then_output)),
                param_count == word_at(bytes, then_output + 2),
                reader.offset == then_params + 4 * k,
                params@.len() == k,
                forall|j: int|
                    0 <= j < k ==> #[trigger] params@[j] == F32Bits(
                        word_at(bytes, then_params + 4 * j),
                    ),
            decreases param_count - k,
        {
            let value = reader.f32_bits()?;
            params.push(value);
            k += 1;
        }
        assert(params@ =~= Seq::new(
            param_count as nat,
            |j: int| F32Bits(word_at(bytes, then_params + 4 * j)),
        ));
        Ok(CombinePayload { op, inputs, output, params })
    }
}

/// `payload` is one that `kernel` takes: a warp or a sampling with as many
/// coordinates as the kernel works on, or a combination whose counts fit in
/// 32 bits.
pub open spec fn takes(kernel: FastNoiseKernel, payload: PayloadView) -> bool {
    match payload {
        PayloadView::Warp { source, output, .. } => {
            ||| kernel == FastNoiseKernel::Warp2d && source.len() == 2 && output.len() == 2
            ||| kernel == FastNoiseKernel::Warp3d && source.len() == 3 && output.len() == 3
        },
        PayloadView::Sample { source, .. } => {
            ||| kernel == FastNoiseKernel::Sample2d && source.len() == 2
            ||| kernel == FastNoiseKernel::Sample3d && source.len() == 3
        },
        PayloadView::Combine { inputs, params, .. } => {
            &&& kernel == FastNoiseKernel::Combine
            &&& inputs.len() <= u32::MAX
            &&& params.len() <= u32::MAX
        },
    }
}

proof fn lemma_warp_round_trip(
    source: Seq<BufferSlot>,
    output: Seq<BufferSlot>,
    noise: FastNoiseLite,
    bytes: Seq<u8>,
)
    requires
        source.len() == output.len(),
        stands_at(bytes, 0, payload_bytes(PayloadView::Warp { source, output, noise })),
    ensures
        read_warp(bytes, 0, source.len()) == (
            Ok::<PayloadView, ErrorView>(PayloadView::Warp { source, output, noise }),
            payload_bytes(PayloadView::Warp { source, output, noise }).len() as int,
        ),
{
    let settings = words_bytes(noise_words(noise));
    lemma_stands_split(bytes, 0, slots_bytes(source) + slots_bytes(output), settings);
    lemma_stands_split(bytes, 0, slots_bytes(source), slots_bytes(output));
    lemma_slots_len(source);
    lemma_slots_len(output);
    lemma_words_len(noise_words(noise));
    lemma_read_slots(bytes, 0, source);
    lemma_read_slots(bytes, 2 * source.len() as int, output);
    lemma_read_noise(bytes, (2 * source.len() + 2 * output.len()) as int, noise);
}

proof fn lemma_sample_round_trip(
    source: Seq<BufferSlot>,
    output: BufferSlot,
    noise: FastNoiseLite,
    bytes: Seq<u8>,
)
    requires
        stands_at(bytes, 0, payload_bytes(PayloadView::Sample { source, output, noise })),
    ensures
        read_sample(bytes, 0, source.len()) == (
            Ok::<PayloadView, ErrorView>(PayloadView::Sample { source, output, noise }),
            payload_bytes(PayloadView::Sample { source, output, noise }).len() as int,
        ),
{
    let settings = words_bytes(noise_words(noise));
    lemma_stands_split(bytes, 0, slots_bytes(source) + half_bytes(output.0), settings);
    lemma_stands_split(bytes, 0, slots_bytes(source), half_bytes(output.0));
    lemma_slots_len(source);
    lemma_words_len(noise_words(noise));
    lemma_read_slots(bytes, 0, source);
    lemma_half_stands(bytes, 2 * source.len() as int, output.0);
    lemma_read_noise(bytes, (2 * source.len() + 2) as int, noise);
}

proof fn lemma_combine_round_trip(
    op: CombineOp,
    inputs: Seq<BufferSlot>,
    output: BufferSlot,
    params: Seq<F32Bits>,
    bytes: Seq<u8>,
)
    requires
        inputs.len() <= u32::MAX,
        params.len() <= u32::MAX,
        stands_at(bytes, 0, payload_bytes(PayloadView::Combine { op, inputs, output, params })),
    ensures
        read_combine(bytes, 0) == (
            Ok::<PayloadView, ErrorView>(PayloadView::Combine { op, inputs, output, params }),
            payload_bytes(PayloadView::Combine { op, inputs, output, params }).len() as int,
        ),
{
    let tag = word_bytes(combine_op_tag(op));
    let input_count = word_bytes(inputs.len() as u32);
    let param_count = word_bytes(params.len() as u32);
    let words = bits(params);
    let to_inputs = tag + input_count + slots_bytes(inputs);
    let to_output = to_inputs + half_bytes(output.0);
    lemma_slots_len(inputs);
    lemma_words_len(words);
    lemma_stands_split(bytes, 0, to_output + param_count, words_bytes(words));
    lemma_stands_split(bytes, 0, to_output, param_count);
    lemma_stands_split(bytes, 0, to_inputs, half_bytes(output.0));
    lemma_stands_split(bytes, 0, tag + input_count, slots_bytes(inputs));
    lemma_stands_split(bytes, 0, tag, input_count);
    lemma_word_stands(bytes, 0, combine_op_tag(op));
    lemma_word_stands(bytes, 4, inputs.len() as u32);
    lemma_read_slots(bytes, 8, inputs);
    let then_output = (8 + 2 * inputs.len()) as int;
    lemma_half_stands(bytes, then_output, output.0);
    lemma_word_stands(bytes, then_output + 2, params.len() as u32);
    lemma_read_bits(bytes, then_output + 6, params);
    law_tags_are_faithful();
}

/// What is read back of a payload is the payload that was written, whatever
/// follows it.
pub proof fn law_payload_round_trip(kernel: FastNoiseKernel, payload: PayloadView, tail: Seq<u8>)
    requires
        takes(kernel, payload),
    ensures
        read_payload(kernel, payload_bytes(payload) + tail, 0) == (
            Ok::<PayloadView, ErrorView>(payload),
            payload_bytes(payload).len() as int,
        ),
{
    let bytes = payload_bytes(payload) + tail;
    lemma_stands_first(payload_bytes(payload), tail);
    match payload {
        PayloadView::Warp { source, output, noise } => {
            lemma_warp_round_trip(source, output, noise, bytes);
        },
        PayloadView::Sample { source, output, noise } => {
            lemma_sample_round_trip(source, output, noise, bytes);
        },
        PayloadView::Combine { op, inputs, output, params } => {
            lemma_combine_round_trip(op, inputs, output, params, bytes);
        },
    }
}

proof fn lemma_warp_back(bytes: Seq<u8>, count: nat)
    requires
        read_warp(bytes, 0, count).0 is Ok,
    ensures
        stands_at(bytes, 0, payload_bytes(read_warp(bytes, 0, count).0->Ok_0)),
        payload_bytes(read_warp(bytes, 0, count).0->Ok_0).len() == read_warp(bytes, 0, count).1,
{
    if let PayloadView::Warp { source, output, noise } = read_warp(bytes, 0, count).0->Ok_0 {
        let settings = words_bytes(noise_words(noise));
        lemma_slots_len(source);
        lemma_slots_len(output);
        lemma_words_len(noise_words(noise));
        lemma_slots_back(bytes, 0, source);
        lemma_slots_back(bytes, 2 * count as int, output);
        lemma_noise_back(bytes, 4 * count as int);
        lemma_stands_join(bytes, 0, slots_bytes(source), slots_bytes(output));
        lemma_stands_join(bytes, 0, slots_bytes(source) + slots_bytes(output), settings);
    }
}

proof fn lemma_sample_back(bytes: Seq<u8>, count: nat)
    requires
        read_sample(bytes, 0, count).0 is Ok,
    ensures
        stands_at(bytes, 0, payload_bytes(read_sample(bytes, 0, count).0->Ok_0)),
        payload_bytes(read_sample(bytes, 0, count).0->Ok_0).len() == read_sample(
            bytes,
            0,
            count,
        ).1,
{
    if let PayloadView::Sample { source, output, noise } = read_sample(bytes, 0, count).0->Ok_0 {
        let settings = words_bytes(noise_words(noise));
        lemma_slots_len(source);
        lemma_words_len(noise_words(noise));
        lemma_slots_back(bytes, 0, source);
        lemma_half_back(bytes, 2 * count as int);
        lemma_noise_back(bytes, (2 * count + 2) as int);
        lemma_stands_join(bytes, 0, slots_bytes(source), half_bytes(output.0));
        lemma_stands_join(bytes, 0, slots_bytes(source) + half_bytes(output.0), settings);
    }
}

proof fn lemma_combine_back(bytes: Seq<u8>)
    requires
        read_combine(bytes, 0).0 is Ok,
    ensures
        stands_at(bytes, 0, payload_bytes(read_combine(bytes, 0).0->Ok_0)),
        payload_bytes(read_combine(bytes, 0).0->Ok_0).len() == read_combine(bytes, 0).1,
{
    if let PayloadView::Combine { op, inputs, output, params } = read_combine(bytes, 0).0->Ok_0 {
        let tag = word_bytes(combine_op_tag(op));
        let input_count = word_bytes(inputs.len() as u32);
        let param_count = word_bytes(params.len() as u32);
        let words = bits(params);
        let to_inputs = tag + input_count + slots_bytes(inputs);
        let to_output = to_inputs + half_bytes(output.0);
        let then_output = (8 + 2 * inputs.len()) as int;
        lemma_slots_len(inputs);
        lemma_words_len(words);
        law_tags_are_faithful();
        lemma_word_back(bytes, 0);
        lemma_word_back(bytes, 4);
        lemma_slots_back(bytes, 8, inputs);
        lemma_half_back(bytes, then_output);
        lemma_word_back(bytes, then_output + 2);
        lemma_words_back(bytes, then_output + 6, words);
        lemma_stands_join(bytes, 0, tag, input_count);
        lemma_stands_join(bytes, 0, tag + input_count, slots_bytes(inputs));
        lemma_stands_join(bytes, 0, to_inputs, half_bytes(output.0));
        lemma_stands_join(bytes, 0, to_output, param_count);
        lemma_stands_join(bytes, 0, to_output + param_count, words_bytes(words));
    }
}

/// A payload that was read is written back as the bytes that it was read from.
pub proof fn law_payload_is_written_back(kernel: FastNoiseKernel, bytes: Seq<u8>)
    requires
        kernel != FastNoiseKernel::InitGrid2d,
        kernel != FastNoiseKernel::InitGrid3d,
        read_payload(kernel, bytes, 0).0 is Ok,
    ensures
        0 <= read_payload(kernel, bytes, 0).1 <= bytes.len(),
        payload_bytes(read_payload(kernel, bytes, 0).0->Ok_0) == bytes.take(
            read_payload(kernel, bytes, 0).1,
        ),
        takes(kernel, read_payload(kernel, bytes, 0).0->Ok_0),
{
    match kernel {
        FastNoiseKernel::Warp2d => lemma_warp_back(bytes, 2),
        FastNoiseKernel::Warp3d => lemma_warp_back(bytes, 3),
        FastNoiseKernel::Sample2d => lemma_sample_back(bytes, 2),
        FastNoiseKernel::Sample3d => lemma_sample_back(bytes, 3),
        _ => lemma_combine_back(bytes),
    }
    let (read, stop) = read_payload(kernel, bytes, 0);
    assert(payload_bytes(read->Ok_0) =~= bytes.take(stop));
}

proof fn lemma_warp_refusal_is_invalid(bytes: Seq<u8>, count: nat)
    ensures
        read_warp(bytes, 0, count).0 matches Err(error) ==> error is InvalidSpec,
{
    let then_output = read_slots(bytes, 0, count).1;
    let then_noise = read_slots(bytes, then_output, count).1;
    lemma_read_noise_is_invalid(bytes, then_noise);
}

proof fn lemma_sample_refusal_is_invalid(bytes: Seq<u8>, count: nat)
    ensures
        read_sample(bytes, 0, count).0 matches Err(error) ==> error is InvalidSpec,
{
    let then_output = read_slots(bytes, 0, count).1;
    lemma_read_noise_is_invalid(bytes, then_output + 2);
}

/// A payload that cannot be read is refused as invalid.
pub(crate) proof fn lemma_refusal_is_invalid(kernel: FastNoiseKernel, bytes: Seq<u8>)
    requires
        kernel != FastNoiseKernel::InitGrid2d,
        kernel != FastNoiseKernel::InitGrid3d,
    ensures
        read_payload(kernel, bytes, 0).0 matches Err(error) ==> error is InvalidSpec,
{
    match kernel {
        FastNoiseKernel::Warp2d => lemma_warp_refusal_is_invalid(bytes, 2),
        FastNoiseKernel::Warp3d => lemma_warp_refusal_is_invalid(bytes, 3),
        FastNoiseKernel::Sample2d => lemma_sample_refusal_is_invalid(bytes, 2),
        FastNoiseKernel::Sample3d => lemma_sample_refusal_is_invalid(bytes, 3),
        _ => {},
    }
}

proof fn lemma_warp_stands(
    source: Seq<BufferSlot>,
    output: Seq<BufferSlot>,
    noise: FastNoiseLite,
    bytes: Seq<u8>,
)
    requires
        stands_at(bytes, 0, payload_bytes(PayloadView::Warp { source, output, noise })),
    ensures
        stands_at(bytes, 0, slots_bytes(source)),
        stands_at(bytes, 2 * source.len() as int, slots_bytes(output)),
        stands_at(
            bytes,
            (2 * source.len() + 2 * output.len()) as int,
            words_bytes(noise_words(noise)),
        ),
        payload_bytes(PayloadView::Warp { source, output, noise }).len() == 2 * source.len() + 2
            * output.len() + 60,
{
    let settings = words_bytes(noise_words(noise));
    lemma_stands_split(bytes, 0, slots_bytes(source) + slots_bytes(output), settings);
    lemma_stands_split(bytes, 0, slots_bytes(source), slots_bytes(output));
    lemma_slots_len(source);
    lemma_slots_len(output);
    lemma_words_len(noise_words(noise));
}

/// The payload of a warp holds the slots that it reads, then those that it writes,
/// two bytes each, then the settings of its noise.
pub proof fn law_warp_payload_is_laid_out(
    source: Seq<BufferSlot>,
    output: Seq<BufferSlot>,
    noise: FastNoiseLite,
)
    ensures
        ({
            let bytes = payload_bytes(PayloadView::Warp { source, output, noise });
            &&& bytes.len() == 2 * source.len() + 2 * output.len() + 60
            &&& forall|i: int|
                0 <= i < source.len() ==> (#[trigger] source[i]).0 == half_value(bytes, 2 * i)
            &&& forall|i: int|
                0 <= i < output.len() ==> (#[trigger] output[i]).0 == half_value(
                    bytes,
                    2 * source.len() as int + 2 * i,
                )
            &&& settings_stand(bytes, (2 * source.len() + 2 * output.len()) as int, noise)
        }),
{
    let bytes = payload_bytes(PayloadView::Warp { source, output, noise });
    lemma_stands_alone(bytes);
    lemma_warp_stands(source, output, noise, bytes);
    lemma_slots_stand(bytes, 0, source);
    lemma_slots_stand(bytes, 2 * source.len() as int, output);
    lemma_settings_stand(bytes, (2 * source.len() + 2 * output.len()) as int, noise);
}

proof fn lemma_sample_stands(
    source: Seq<BufferSlot>,
    output: BufferSlot,
    noise: FastNoiseLite,
    bytes: Seq<u8>,
)
    requires
        stands_at(bytes, 0, payload_bytes(PayloadView::Sample { source, output, noise })),
    ensures
        stands_at(bytes, 0, slots_bytes(source)),
        half_value(bytes, 2 * source.len() as int) == output.0,
        stands_at(bytes, (2 * source.len() + 2) as int, words_bytes(noise_words(noise))),
        payload_bytes(PayloadView::Sample { source, output, noise }).len() == 2 * source.len() + 62,
{
    let settings = words_bytes(noise_words(noise));
    lemma_stands_split(bytes, 0, slots_bytes(source) + half_bytes(output.0), settings);
    lemma_stands_split(bytes, 0, slots_bytes(source), half_bytes(output.0));
    lemma_slots_len(source);
    lemma_words_len(noise_words(noise));
    lemma_half_stands(bytes, 2 * source.len() as int, output.0);
}

/// The payload of a sampling holds the slots that it reads, then the one that it
/// writes, two bytes each, then the settings of its noise.
pub proof fn law_sample_payload_is_laid_out(
    source: Seq<BufferSlot>,
    output: BufferSlot,
    noise: FastNoiseLite,
)
    ensures
        ({
            let bytes = payload_bytes(PayloadView::Sample { source, output, noise });
            &&& bytes.len() == 2 * source.len() + 62
            &&& forall|i: int|
                0 <= i < source.len() ==> (#[trigger] source[i]).0 == half_value(bytes, 2 * i)
            &&& half_value(bytes, 2 * source.len() as int) == output.0
            &&& settings_stand(bytes, (2 * source.len() + 2) as int, noise)
        }),
{
    let bytes = payload_bytes(PayloadView::Sample { source, output, noise });
    lemma_stands_alone(bytes);
    lemma_sample_stands(source, output, noise, bytes);
    lemma_slots_stand(bytes, 0, source);
    lemma_settings_stand(bytes, (2 * source.len() + 2) as int, noise);
}

proof fn lemma_combine_stands(
    op: CombineOp,
    inputs: Seq<BufferSlot>,
    output: BufferSlot,
    params: Seq<F32Bits>,
    bytes: Seq<u8>,
)
    requires
        inputs.len() <= u32::MAX,
        params.len() <= u32::MAX,
        stands_at(bytes, 0, payload_bytes(PayloadView::Combine { op, inputs, output, params })),
    ensures
        word_value(bytes, 0) == combine_op_tag(op),
        word_value(bytes, 4) == inputs.len(),
        stands_at(bytes, 8, slots_bytes(inputs)),
        half_value(bytes, (8 + 2 * inputs.len()) as int) == output.0,
        word_value(bytes, (10 + 2 * inputs.len()) as int) == params.len(),
        stands_at(bytes, (14 + 2 * inputs.len()) as int, words_bytes(bits(params))),
        payload_bytes(PayloadView::Combine { op, inputs, output, params }).len() == 14 + 2
            * inputs.len() + 4 * params.len(),
{
    let tag = word_bytes(combine_op_tag(op));
    let input_count = word_bytes(inputs.len() as u32);
    let param_count = word_bytes(params.len() as u32);
    let words = bits(params);
    let to_inputs = tag + input_count + slots_bytes(inputs);
    let to_output = to_inputs + half_bytes(output.0);
    lemma_slots_len(inputs);
    lemma_words_len(words);
    lemma_stands_split(bytes, 0, to_output + param_count, words_bytes(words));
    lemma_stands_split(bytes, 0, to_output, param_count);
    lemma_stands_split(bytes, 0, to_inputs, half_bytes(output.0));
    lemma_stands_split(bytes, 0, tag + input_count, slots_bytes(inputs));
    lemma_stands_split(bytes, 0, tag, input_count);
    lemma_word_stands(bytes, 0, combine_op_tag(op));
    lemma_word_stands(bytes, 4, inputs.len() as u32);
    lemma_half_stands(bytes, (8 + 2 * inputs.len()) as int, output.0);
    lemma_word_stands(bytes, (10 + 2 * inputs.len()) as int, params.len() as u32);
}

/// The payload of a combination holds the tag of its operation and the number of
/// its inputs, four bytes each, then the slots that it reads and the one that it
/// writes, two bytes each, then the number of its parameters and their bits, four
/// bytes each.
pub proof fn law_combine_payload_is_laid_out(
    op: CombineOp,
    inputs: Seq<BufferSlot>,
    output: BufferSlot,
    params: Seq<F32Bits>,
)
    requires
        inputs.len() <= u32::MAX,
        params.len() <= u32::MAX,
    ensures
        ({
            let bytes = payload_bytes(PayloadView::Combine { op, inputs, output, params });
            &&& bytes.len() == 14 + 2 * inputs.len() + 4 * params.len()
            &&& word_value(bytes, 0) == combine_op_tag(op)
            &&& word_value(bytes, 4) == inputs.len()
            &&& forall|i: int|
                0 <= i < inputs.len() ==> (#[trigger] inputs[i]).0 == half_value(bytes, 8 + 2 * i)
            &&& half_value(bytes, (8 + 2 * inputs.len()) as int) == output.0
            &&& word_value(bytes, (10 + 2 * inputs.len()) as int) == params.len()
            &&& forall|i: int|
                0 <= i < params.len() ==> (#[trigger] params[i]).0 == word_value(
                    bytes,
                    (14 + 2 * inputs.len()) as int + 4 * i,
                )
        }),
{
    let bytes = payload_bytes(PayloadView::Combine { op, inputs, output, params });
    lemma_stands_alone(bytes);
    lemma_combine_stands(op, inputs, output, params, bytes);
    lemma_slots_stand(bytes, 8, inputs);
    lemma_bits_stand(bytes, (14 + 2 * inputs.len()) as int, params);
}

/// A payload that ends too early is refused, wherever it is cut off.
pub proof fn law_cut_payload_is_refused(kernel: FastNoiseKernel, payload: PayloadView, len: int)
    requires
        takes(kernel, payload),
        0 <= len < payload_bytes(payload).len(),
    ensures
        read_payload(kernel, payload_bytes(payload).take(len), 0).0 is Err,
{
    let whole = payload_bytes(payload);
    let cut = whole.take(len);
    if read_payload(kernel, cut, 0).0 is Ok {
        let found = read_payload(kernel, cut, 0).0->Ok_0;
        let stop = read_payload(kernel, cut, 0).1;
        law_payload_is_written_back(kernel, cut);
        law_payload_round_trip(kernel, found, whole.skip(stop));
        law_payload_round_trip(kernel, payload, Seq::empty());
        assert(payload_bytes(found) + whole.skip(stop) =~= whole);
        assert(whole + Seq::<u8>::empty() =~= whole);
    }
}

/// The value of a payload holds the slots, the settings and the parameters of the
/// payload, each in its place.
pub proof fn law_payload_values_hold_the_payload<const N: usize>(
    warp: WarpPayload<N>,
    sample: SamplePayload<N>,
    mix: CombinePayload,
)
    ensures
        warp@ matches PayloadView::Warp { source, output, noise } && source
            == warp.source.coords@ && output == warp.output.coords@ && noise == warp.noise,
        sample@ matches PayloadView::Sample { source, output, noise } && source
            == sample.source.coords@ && output == sample.output && noise == sample.noise,
        mix@ matches PayloadView::Combine { op, inputs, output, params } && op == mix.op && inputs
            == mix.inputs@ && output == mix.output && params == mix.params@,
{
}

/// A combination that is refused is told to be cut off, or to hold an unknown tag,
/// which is given.
pub proof fn law_combination_is_refused_for_a_reason(bytes: Seq<u8>)
    requires
        read_payload(FastNoiseKernel::Combine, bytes, 0).0 is Err,
    ensures
        ({
            let error = read_payload(FastNoiseKernel::Combine, bytes, 0).0->Err_0;
            if bytes.len() >= 4 && word_value(bytes, 0) > 7 {
                error == unknown_tag("combine op tag"@, word_at(bytes, 0))
            } else {
                error == ErrorView::InvalidSpec("kernel payload truncated"@)
            }
        }),
{
    law_tags_are_bounded(word_at(bytes, 0));
}

} // verus!

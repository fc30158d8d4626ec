//! The bytes of kernel payloads: little-endian words, slots and noise settings.

use vstd::prelude::*;

use crate::error::{ErrorView, FastNoiseResult, invalid_spec};
use crate::model::BufferSlot;
use crate::noise::{F32Bits, FastNoiseLite, cellular_distance_function_of, cellular_distance_function_tag, cellular_return_type_of, cellular_return_type_tag, decode_cellular_distance_function, decode_cellular_return_type, decode_domain_warp_type, decode_fractal_type, decode_noise_type, decode_rotation_type, domain_warp_type_of, domain_warp_type_tag, encode_cellular_distance_function, encode_cellular_return_type, encode_domain_warp_type, encode_fractal_type, encode_noise_type, encode_rotation_type, fractal_type_of, fractal_type_tag, law_tags_are_bounded, law_tags_are_faithful, noise_type_of, noise_type_tag, rotation_type_of, rotation_type_tag, unknown_tag};

verus! {

/// A 16-bit number, least significant byte first.
pub open spec fn half_bytes(value: u16) -> Seq<u8> {
    seq![(value % 256) as u8, (value / 256) as u8]
}

/// A 32-bit number, least significant byte first.
pub open spec fn word_bytes(value: u32) -> Seq<u8> {
    seq![
        (value % 256) as u8,
        (value / 256 % 256) as u8,
        (value / 65536 % 256) as u8,
        (value / 16777216) as u8,
    ]
}

/// The 16-bit number at `at`.
pub open spec fn half_at(bytes: Seq<u8>, at: int) -> u16 {
    (bytes[at] + 256 * bytes[at + 1]) as u16
}

/// The 32-bit number at `at`.
pub open spec fn word_at(bytes: Seq<u8>, at: int) -> u32 {
    (bytes[at] + 256 * bytes[at + 1] + 65536 * bytes[at + 2] + 16777216 * bytes[at + 3]) as u32
}

/// A signed number as a word, in two's complement.
pub open spec fn signed_word(value: i32) -> u32 {
    if value < 0 {
        (value + 0x1_0000_0000) as u32
    } else {
        value as u32
    }
}

/// The signed number that a word stands for in two's complement.
pub open spec fn word_signed(word: u32) -> i32 {
    if word >= 0x8000_0000 {
        (word - 0x1_0000_0000) as i32
    } else {
        word as i32
    }
}

/// Words one after another.
pub open spec fn words_bytes(words: Seq<u32>) -> Seq<u8>
    decreases words.len(),
{
    if words.len() == 0 {
        seq![]
    } else {
        words_bytes(words.drop_last()) + word_bytes(words.last())
    }
}

/// Slots one after another.
pub open spec fn slots_bytes(slots: Seq<BufferSlot>) -> Seq<u8>
    decreases slots.len(),
{
    if slots.len() == 0 {
        seq![]
    } else {
        slots_bytes(slots.drop_last()) + half_bytes(slots.last().0)
    }
}

/// The bit patterns of numbers.
pub open spec fn bits(values: Seq<F32Bits>) -> Seq<u32> {
    values.map_values(|value: F32Bits| value.0)
}

/// Noise settings as words.
pub open spec fn noise_words(noise: FastNoiseLite) -> Seq<u32> {
    seq![
        signed_word(noise.seed),
        noise.frequency.0,
        noise_type_tag(noise.noise_type),
        rotation_type_tag(noise.rotation_type_3d),
        fractal_type_tag(noise.fractal_type),
        signed_word(noise.octaves),
        noise.lacunarity.0,
        noise.gain.0,
        noise.weighted_strength.0,
        noise.ping_pong_strength.0,
        cellular_distance_function_tag(noise.cellular_distance_function),
        cellular_return_type_tag(noise.cellular_return_type),
        noise.cellular_jitter_modifier.0,
        domain_warp_type_tag(noise.domain_warp_type),
        noise.domain_warp_amp.0,
    ]
}

/// How many words noise settings take.
pub const NOISE_WORDS: usize = 15;

/// The refusal of a payload that ends too early.
pub open spec fn truncated() -> ErrorView {
    ErrorView::InvalidSpec("kernel payload truncated"@)
}

/// What is wrong with word `k` of the noise settings at `at`, if anything is.
pub open spec fn noise_word_refusal(bytes: Seq<u8>, at: int, k: int) -> Option<ErrorView> {
    let word = word_at(bytes, at + 4 * k);
    if at + 4 * k + 4 > bytes.len() {
        Some(truncated())
    } else if k == 2 && noise_type_of(word) is None {
        Some(unknown_tag("noise type tag"@, word))
    } else if k == 3 && rotation_type_of(word) is None {
        Some(unknown_tag("rotation type tag"@, word))
    } else if k == 4 && fractal_type_of(word) is None {
        Some(unknown_tag("fractal type tag"@, word))
    } else if k == 10 && cellular_distance_function_of(word) is None {
        Some(unknown_tag("cellular distance tag"@, word))
    } else if k == 11 && cellular_return_type_of(word) is None {
        Some(unknown_tag("cellular return tag"@, word))
    } else if k == 13 && domain_warp_type_of(word) is None {
        Some(unknown_tag("domain warp tag"@, word))
    } else {
        None
    }
}

/// The first thing wrong with the noise settings at `at`, from word `k` on, and
/// where reading stops there: before a word that is cut off, behind a bad tag.
pub open spec fn noise_refusal(bytes: Seq<u8>, at: int, k: int) -> Option<(ErrorView, int)>
    decreases NOISE_WORDS - k,
{
    if k >= NOISE_WORDS {
        None
    } else {
        match noise_word_refusal(bytes, at, k) {
            Some(error) => Some(
                (
                    error,
                    if at + 4 * k + 4 > bytes.len() {
                        at + 4 * k
                    } else {
                        at + 4 * k + 4
                    },
                ),
            ),
            None => noise_refusal(bytes, at, k + 1),
        }
    }
}

/// The noise settings at `at`.
pub open spec fn noise_at(bytes: Seq<u8>, at: int) -> FastNoiseLite {
    FastNoiseLite {
        seed: word_signed(word_at(bytes, at)),
        frequency: F32Bits(word_at(bytes, at + 4)),
        noise_type: noise_type_of(word_at(bytes, at + 8))->0,
        rotation_type_3d: rotation_type_of(word_at(bytes, at + 12))->0,
        fractal_type: fractal_type_of(word_at(bytes, at + 16))->0,
        octaves: word_signed(word_at(bytes, at + 20)),
        lacunarity: F32Bits(word_at(bytes, at + 24)),
        gain: F32Bits(word_at(bytes, at + 28)),
        weighted_strength: F32Bits(word_at(bytes, at + 32)),
        ping_pong_strength: F32Bits(word_at(bytes, at + 36)),
        cellular_distance_function: cellular_distance_function_of(word_at(bytes, at + 40))->0,
        cellular_return_type: cellular_return_type_of(word_at(bytes, at + 44))->0,
        cellular_jitter_modifier: F32Bits(word_at(bytes, at + 48)),
        domain_warp_type: domain_warp_type_of(word_at(bytes, at + 52))->0,
        domain_warp_amp: F32Bits(word_at(bytes, at + 56)),
    }
}

/// What reading gives, and where it stops.
pub open spec fn read_noise(bytes: Seq<u8>, at: int) -> (Result<FastNoiseLite, ErrorView>, int) {
    match noise_refusal(bytes, at, 0) {
        Some((error, stop)) => (Err(error), stop),
        None => (Ok(noise_at(bytes, at)), at + 4 * NOISE_WORDS),
    }
}

/// Reading `count` slots at `at`.
pub open spec fn read_slots(bytes: Seq<u8>, at: int, count: nat) -> (
    Result<Seq<BufferSlot>, ErrorView>,
    int,
) {
    if at + 2 * count <= bytes.len() {
        (Ok(Seq::new(count, |i: int| BufferSlot(half_at(bytes, at + 2 * i)))), at + 2 * count)
    } else {
        (Err(truncated()), at + (bytes.len() - at) / 2 * 2)
    }
}

/// Reading `count` numbers at `at`.
pub open spec fn read_bits(bytes: Seq<u8>, at: int, count: nat) -> (
    Result<Seq<F32Bits>, ErrorView>,
    int,
) {
    if at + 4 * count <= bytes.len() {
        (Ok(Seq::new(count, |i: int| F32Bits(word_at(bytes, at + 4 * i)))), at + 4 * count)
    } else {
        (Err(truncated()), at + (bytes.len() - at) / 4 * 4)
    }
}

/// Appends a payload to a vector of bytes.
pub struct PayloadWriter<'a> {
    pub bytes: &'a mut Vec<u8>,
}

impl<'a> PayloadWriter<'a> {
    pub fn new(bytes: &'a mut Vec<u8>) -> (writer: Self)
        ensures
            writer.bytes@ == old(bytes)@,
            *final(writer.bytes) == *final(bytes),
    {
        PayloadWriter { bytes }
    }

    pub fn u16(&mut self, value: u16)
        ensures
            final(self).bytes@ == old(self).bytes@ + half_bytes(value),
            *final(final(self).bytes) == *final(old(self).bytes),
    {
        let ghost before = self.bytes@;
        self.bytes.push((value % 256) as u8);
        self.bytes.push((value / 256) as u8);
        assert(self.bytes@ =~= before + half_bytes(value));
    }

    pub fn slot(&mut self, value: BufferSlot)
        ensures
            final(self).bytes@ == old(self).bytes@ + half_bytes(value.0),
            *final(final(self).bytes) == *final(old(self).bytes),
    {
        self.u16(value.0);
    }

    pub fn u32(&mut self, value: u32)
        ensures
            final(self).bytes@ == old(self).bytes@ + word_bytes(value),
            *final(final(self).bytes) == *final(old(self).bytes),
    {
        let ghost before = self.bytes@;
        self.bytes.push((value % 256) as u8);
        self.bytes.push((value / 256 % 256) as u8);
        self.bytes.push((value / 65536 % 256) as u8);
        self.bytes.push((value / 16777216) as u8);
        assert(self.bytes@ =~= before + word_bytes(value));
    }

    pub fn i32(&mut self, value: i32)
        ensures
            final(self).bytes@ == old(self).bytes@ + word_bytes(signed_word(value)),
            *final(final(self).bytes) == *final(old(self).bytes),
    {
        if value < 0 {
            self.u32((value as i64 + 0x1_0000_0000) as u32);
        } else {
            self.u32(value as u32);
        }
    }

    pub fn f32_bits(&mut self, value: F32Bits)
        ensures
            final(self).bytes@ == old(self).bytes@ + word_bytes(value.0),
            *final(final(self).bytes) == *final(old(self).bytes),
    {
        self.u32(value.0);
    }

    pub fn noise(&mut self, noise: &FastNoiseLite)
        ensures
            final(self).bytes@ == old(self).bytes@ + words_bytes(noise_words(*noise)),
            *final(final(self).bytes) == *final(old(self).bytes),
    {
        let ghost before = self.bytes@;
        let ghost words = noise_words(*noise);
        assert(before + words_bytes(words.take(0)) =~= before);
        self.i32(noise.seed);
        proof {
            lemma_word_joins(before, words, 0, self.bytes@);
        }
        self.f32_bits(noise.frequency);
        proof {
            lemma_word_joins(before, words, 1, self.bytes@);
        }
        self.u32(encode_noise_type(noise.noise_type));
        proof {
            lemma_word_joins(before, words, 2, self.bytes@);
        }
        self.u32(encode_rotation_type(noise.rotation_type_3d));
        proof {
            lemma_word_joins(before, words, 3, self.bytes@);
        }
        self.u32(encode_fractal_type(noise.fractal_type));
        proof {
            lemma_word_joins(before, words, 4, self.bytes@);
        }
        self.i32(noise.octaves);
        proof {
            lemma_word_joins(before, words, 5, self.bytes@);
        }
        self.f32_bits(noise.lacunarity);
        proof {
            lemma_word_joins(before, words, 6, self.bytes@);
        }
        self.f32_bits(noise.gain);
        proof {
            lemma_word_joins(before, words, 7, self.bytes@);
        }
        self.f32_bits(noise.weighted_strength);
        proof {
            lemma_word_joins(before, words, 8, self.bytes@);
        }
        self.f32_bits(noise.ping_pong_strength);
        proof {
            lemma_word_joins(before, words, 9, self.bytes@);
        }
        self.u32(encode_cellular_distance_function(noise.cellular_distance_function));
        proof {
            lemma_word_joins(before, words, 10, self.bytes@);
        }
        self.u32(encode_cellular_return_type(noise.cellular_return_type));
        proof {
            lemma_word_joins(before, words, 11, self.bytes@);
        }
        self.f32_bits(noise.cellular_jitter_modifier);
        proof {
            lemma_word_joins(before, words, 12, self.bytes@);
        }
        self.u32(encode_domain_warp_type(noise.domain_warp_type));
        proof {
            lemma_word_joins(before, words, 13, self.bytes@);
        }
        self.f32_bits(noise.domain_warp_amp);
        proof {
            lemma_word_joins(before, words, 14, self.bytes@);
        }
        assert(words.take(15) =~= words);
    }
}

/// Reads a payload from its beginning on.
pub struct PayloadReader<'a> {
    pub bytes: &'a [u8],
    pub offset: usize,
}

impl<'a> PayloadReader<'a> {
    /// The reader has not gone beyond the end.
    pub open spec fn wf(self) -> bool {
        self.offset <= self.bytes@.len()
    }

    pub fn new(bytes: &'a [u8]) -> (reader: Self)
        ensures
            reader.bytes@ == bytes@,
            reader.offset == 0,
            reader.wf(),
    {
        PayloadReader { bytes, offset: 0 }
    }

    /// The next `N` bytes.
    pub fn read_exact<const N: usize>(&mut self) -> (read: FastNoiseResult<[u8; N]>)
        requires
            old(self).wf(),
        ensures
            final(self).wf(),
            final(self).bytes == old(self).bytes,
            match read {
                Ok(out) => {
                    &&& old(self).offset + N <= old(self).bytes@.len()
                    &&& final(self).offset == old(self).offset + N
                    &&& out@ == old(self).bytes@.subrange(
                        old(self).offset as int,
                        old(self).offset + N,
                    )
                },
                Err(error) => {
                    &&& old(self).offset + N > old(self).bytes@.len()
                    &&& final(self).offset == old(self).offset
                    &&& error@ == truncated()
                },
            },
    {
        if N > self.bytes.len() - self.offset {
            return Err(invalid_spec("kernel payload truncated"));
        }
        let mut out = [0u8; N];
        let mut i: usize = 0;
        while i < N
            invariant
                i <= N,
                self.offset + N <= self.bytes@.len() <= usize::MAX,
                self.offset == old(self).offset,
                self.bytes == old(self).bytes,
                forall|j: int| 0 <= j < i ==> out@[j] == self.bytes@[self.offset + j],
            decreases N - i,
        {
            out[i] = self.bytes[self.offset + i];
            i += 1;
        }
        assert(out@ =~= self.bytes@.subrange(self.offset as int, self.offset + N));
        self.offset = self.offset + N;
        Ok(out)
    }

    pub fn u16(&mut self) -> (read: FastNoiseResult<u16>)
        requires
            old(self).wf(),
        ensures
            final(self).wf(),
            final(self).bytes == old(self).bytes,
            match read {
                Ok(value) => {
                    &&& old(self).offset + 2 <= old(self).bytes@.len()
                    &&& final(self).offset == old(self).offset + 2
                    &&& value == half_at(old(self).bytes@, old(self).offset as int)
                },
                Err(error) => {
                    &&& old(self).offset + 2 > old(self).bytes@.len()
                    &&& final(self).offset == old(self).offset
                    &&& error@ == truncated()
                },
            },
    {
        match self.read_exact::<2>() {
            Ok(out) => Ok(out[0] as u16 + 256 * out[1] as u16),
            Err(error) => Err(error),
        }
    }

    pub fn slot(&mut self) -> (read: FastNoiseResult<BufferSlot>)
        requires
            old(self).wf(),
        ensures
            final(self).wf(),
            final(self).bytes == old(self).bytes,
            match read {
                Ok(slot) => {
                    &&& old(self).offset + 2 <= old(self).bytes@.len()
                    &&& final(self).offset == old(self).offset + 2
                    &&& slot == BufferSlot(half_at(old(self).bytes@, old(self).offset as int))
                },
                Err(error) => {
                    &&& old(self).offset + 2 > old(self).bytes@.len()
                    &&& final(self).offset == old(self).offset
                    &&& error@ == truncated()
                },
            },
    {
        match self.u16() {
            Ok(value) => Ok(BufferSlot(value)),
            Err(error) => Err(error),
        }
    }

    pub fn u32(&mut self) -> (read: FastNoiseResult<u32>)
        requires
            old(self).wf(),
        ensures
            final(self).wf(),
            final(self).bytes == old(self).bytes,
            match read {
                Ok(value) => {
                    &&& old(self).offset + 4 <= old(self).bytes@.len()
                    &&& final(self).offset == old(self).offset + 4
                    &&& value == word_at(old(self).bytes@, old(self).offset as int)
                },
                Err(error) => {
                    &&& old(self).offset + 4 > old(self).bytes@.len()
                    &&& final(self).offset == old(self).offset
                    &&& error@ == truncated()
                },
            },
    {
        match self.read_exact::<4>() {
            Ok(out) => Ok(
                out[0] as u32 + 256 * out[1] as u32 + 65536 * out[2] as u32 + 16777216
                    * out[3] as u32,
            ),
            Err(error) => Err(error),
        }
    }

    pub fn i32(&mut self) -> (read: FastNoiseResult<i32>)
        requires
            old(self).wf(),
        ensures
            final(self).wf(),
            final(self).bytes == old(self).bytes,
            match read {
                Ok(value) => {
                    &&& old(self).offset + 4 <= old(self).bytes@.len()
                    &&& final(self).offset == old(self).offset + 4
                    &&& value == word_signed(
                        word_at(old(self).bytes@, old(self).offset as int),
                    )
                },
                Err(error) => {
                    &&& old(self).offset + 4 > old(self).bytes@.len()
                    &&& final(self).offset == old(self).offset
                    &&& error@ == truncated()
                },
            },
    {
        match self.u32() {
            Ok(word) => if word >= 0x8000_0000 {
                Ok((word as i64 - 0x1_0000_0000) as i32)
            } else {
                Ok(word as i32)
            },
            Err(error) => Err(error),
        }
    }

    pub fn f32_bits(&mut self) -> (read: FastNoiseResult<F32Bits>)
        requires
            old(self).wf(),
        ensures
            final(self).wf(),
            final(self).bytes == old(self).bytes,
            match read {
                Ok(value) => {
                    &&& old(self).offset + 4 <= old(self).bytes@.len()
                    &&& final(self).offset == old(self).offset + 4
                    &&& value == F32Bits(word_at(old(self).bytes@, old(self).offset as int))
                },
                Err(error) => {
                    &&& old(self).offset + 4 > old(self).bytes@.len()
                    &&& final(self).offset == old(self).offset
                    &&& error@ == truncated()
                },
            },
    {
        match self.u32() {
            Ok(word) => Ok(F32Bits(word)),
            Err(error) => Err(error),
        }
    }

    pub fn noise(&mut self) -> (read: FastNoiseResult<FastNoiseLite>)
        requires
            old(self).wf(),
        ensures
            final(self).wf(),
            final(self).bytes == old(self).bytes,
            ({
                let (expected, stop) = read_noise(old(self).bytes@, old(self).offset as int);
                &&& final(self).offset == stop
                &&& match read {
                    Ok(noise) => expected == Ok::<FastNoiseLite, ErrorView>(noise),
                    Err(error) => expected == Err::<FastNoiseLite, ErrorView>(error@),
                }
            }),
    {
        let ghost bytes = self.bytes@;
        let ghost at = self.offset as int;
        let seed: i32 = self.i32()?;
        assert(noise_refusal(bytes, at, 0) == noise_refusal(bytes, at, 1));
        let frequency: F32Bits = self.f32_bits()?;
        assert(noise_refusal(bytes, at, 0) == noise_refusal(bytes, at, 2));
        let noise_type = decode_noise_type(self.u32()?)?;
        assert(noise_refusal(bytes, at, 0) == noise_refusal(bytes, at, 3));
        let rotation_type_3d = decode_rotation_type(self.u32()?)?;
        assert(noise_refusal(bytes, at, 0) == noise_refusal(bytes, at, 4));
        let fractal_type = decode_fractal_type(self.u32()?)?;
        assert(noise_refusal(bytes, at, 0) == noise_refusal(bytes, at, 5));
        let octaves: i32 = self.i32()?;
        assert(noise_refusal(bytes, at, 0) == noise_refusal(bytes, at, 6));
        let lacunarity: F32Bits = self.f32_bits()?;
        assert(noise_refusal(bytes, at, 0) == noise_refusal(bytes, at, 7));
        let gain: F32Bits = self.f32_bits()?;
        assert(noise_refusal(bytes, at, 0) == noise_refusal(bytes, at, 8));
        let weighted_strength: F32Bits = self.f32_bits()?;
        assert(noise_refusal(bytes, at, 0) == noise_refusal(bytes, at, 9));
        let ping_pong_strength: F32Bits = self.f32_bits()?;
        assert(noise_refusal(bytes, at, 0) == noise_refusal(bytes, at, 10));
        let cellular_distance_function = decode_cellular_distance_function(self.u32()?)?;
        assert(noise_refusal(bytes, at, 0) == noise_refusal(bytes, at, 11));
        let cellular_return_type = decode_cellular_return_type(self.u32()?)?;
        assert(noise_refusal(bytes, at, 0) == noise_refusal(bytes, at, 12));
        let cellular_jitter_modifier: F32Bits = self.f32_bits()?;
        assert(noise_refusal(bytes, at, 0) == noise_refusal(bytes, at, 13));
        let domain_warp_type = decode_domain_warp_type(self.u32()?)?;
        assert(noise_refusal(bytes, at, 0) == noise_refusal(bytes, at, 14));
        let domain_warp_amp: F32Bits = self.f32_bits()?;
        assert(noise_refusal(bytes, at, 0) == noise_refusal(bytes, at, 15));
        Ok(
            FastNoiseLite {
                seed,
                frequency,
                noise_type,
                rotation_type_3d,
                fractal_type,
                octaves,
                lacunarity,
                gain,
                weighted_strength,
                ping_pong_strength,
                cellular_distance_function,
                cellular_return_type,
                cellular_jitter_modifier,
                domain_warp_type,
                domain_warp_amp,
            },
        )
    }
}

proof fn lemma_words_step(words: Seq<u32>, k: int)
    requires
        0 <= k < words.len(),
    ensures
        words_bytes(words.take(k + 1)) == words_bytes(words.take(k)) + word_bytes(words[k]),
{
    assert(words.take(k + 1).drop_last() =~= words.take(k));
}

/// A word written behind the first `k` words makes `k + 1` words.
pub(crate) proof fn lemma_word_joins(before: Seq<u8>, words: Seq<u32>, k: int, now: Seq<u8>)
    requires
        0 <= k < words.len(),
        now == before + words_bytes(words.take(k)) + word_bytes(words[k]),
    ensures
        now == before + words_bytes(words.take(k + 1)),
{
    lemma_words_step(words, k);
    assert(now =~= before + (words_bytes(words.take(k)) + word_bytes(words[k])));
}

/// `part` stands in `bytes` from `at` on.
pub(crate) open spec fn stands_at(bytes: Seq<u8>, at: int, part: Seq<u8>) -> bool {
    &&& 0 <= at
    &&& at + part.len() <= bytes.len()
    &&& forall|i: int| 0 <= i < part.len() ==> #[trigger] part[i] == bytes[at + i]
}

pub(crate) proof fn lemma_stands_first(part: Seq<u8>, tail: Seq<u8>)
    ensures
        stands_at(part + tail, 0, part),
{
}

pub(crate) proof fn lemma_stands_split(bytes: Seq<u8>, at: int, first: Seq<u8>, second: Seq<u8>)
    requires
        stands_at(bytes, at, first + second),
    ensures
        stands_at(bytes, at, first),
        stands_at(bytes, at + first.len(), second),
{
    let both = first + second;
    assert forall|i: int| 0 <= i < first.len() implies #[trigger] first[i] == bytes[at + i] by {
        assert(both[i] == first[i]);
    }
    assert forall|i: int| 0 <= i < second.len() implies #[trigger] second[i] == bytes[at
        + first.len() + i] by {
        assert(both[first.len() + i] == second[i]);
    }
}

pub(crate) proof fn lemma_half_stands(bytes: Seq<u8>, at: int, value: u16)
    requires
        stands_at(bytes, at, half_bytes(value)),
    ensures
        half_at(bytes, at) == value,
{
    let part = half_bytes(value);
    assert(part[0] == bytes[at + 0]);
    assert(part[1] == bytes[at + 1]);
}

pub(crate) proof fn lemma_word_stands(bytes: Seq<u8>, at: int, value: u32)
    requires
        stands_at(bytes, at, word_bytes(value)),
    ensures
        word_at(bytes, at) == value,
{
    let part = word_bytes(value);
    assert(part[0] == bytes[at + 0]);
    assert(part[1] == bytes[at + 1]);
    assert(part[2] == bytes[at + 2]);
    assert(part[3] == bytes[at + 3]);
}

pub(crate) proof fn lemma_slots_len(slots: Seq<BufferSlot>)
    ensures
        slots_bytes(slots).len() == 2 * slots.len(),
    decreases slots.len(),
{
    if slots.len() > 0 {
        lemma_slots_len(slots.drop_last());
    }
}

pub(crate) proof fn lemma_words_len(words: Seq<u32>)
    ensures
        words_bytes(words).len() == 4 * words.len(),
    decreases words.len(),
{
    if words.len() > 0 {
        lemma_words_len(words.drop_last());
    }
}

/// Slots that were written are read back one by one.
pub(crate) proof fn lemma_slot_in(bytes: Seq<u8>, at: int, slots: Seq<BufferSlot>, i: int)
    requires
        stands_at(bytes, at, slots_bytes(slots)),
        0 <= i < slots.len(),
    ensures
        half_at(bytes, at + 2 * i) == slots[i].0,
    decreases slots.len(),
{
    let rest = slots.drop_last();
    lemma_stands_split(bytes, at, slots_bytes(rest), half_bytes(slots.last().0));
    lemma_slots_len(rest);
    if i == slots.len() - 1 {
        lemma_half_stands(bytes, at + 2 * i, slots[i].0);
    } else {
        lemma_slot_in(bytes, at, rest, i);
    }
}

/// Words that were written are read back one by one.
pub(crate) proof fn lemma_word_in(bytes: Seq<u8>, at: int, words: Seq<u32>, i: int)
    requires
        stands_at(bytes, at, words_bytes(words)),
        0 <= i < words.len(),
    ensures
        word_at(bytes, at + 4 * i) == words[i],
    decreases words.len(),
{
    let rest = words.drop_last();
    lemma_stands_split(bytes, at, words_bytes(rest), word_bytes(words.last()));
    lemma_words_len(rest);
    if i == words.len() - 1 {
        lemma_word_stands(bytes, at + 4 * i, words[i]);
    } else {
        lemma_word_in(bytes, at, rest, i);
    }
}

pub(crate) proof fn lemma_read_slots(bytes: Seq<u8>, at: int, slots: Seq<BufferSlot>)
    requires
        stands_at(bytes, at, slots_bytes(slots)),
    ensures
        read_slots(bytes, at, slots.len()) == (
            Ok::<Seq<BufferSlot>, ErrorView>(slots),
            at + 2 * slots.len(),
        ),
{
    lemma_slots_len(slots);
    let found = Seq::new(slots.len(), |i: int| BufferSlot(half_at(bytes, at + 2 * i)));
    assert forall|i: int| 0 <= i < slots.len() implies found[i] == slots[i] by {
        lemma_slot_in(bytes, at, slots, i);
    }
    assert(found =~= slots);
}

pub(crate) proof fn lemma_read_bits(bytes: Seq<u8>, at: int, values: Seq<F32Bits>)
    requires
        stands_at(bytes, at, words_bytes(bits(values))),
    ensures
        read_bits(bytes, at, values.len()) == (
            Ok::<Seq<F32Bits>, ErrorView>(values),
            at + 4 * values.len(),
        ),
{
    lemma_words_len(bits(values));
    let found = Seq::new(values.len(), |i: int| F32Bits(word_at(bytes, at + 4 * i)));
    assert forall|i: int| 0 <= i < values.len() implies found[i] == values[i] by {
        lemma_word_in(bytes, at, bits(values), i);
    }
    assert(found =~= values);
}

/// Noise settings that were written are read back.
pub(crate) proof fn lemma_read_noise(bytes: Seq<u8>, at: int, noise: FastNoiseLite)
    requires
        stands_at(bytes, at, words_bytes(noise_words(noise))),
    ensures
        read_noise(bytes, at) == (Ok::<FastNoiseLite, ErrorView>(noise), at + 60),
{
    let words = noise_words(noise);
    lemma_words_len(words);
    lemma_word_in(bytes, at, words, 0);
    lemma_word_in(bytes, at, words, 1);
    lemma_word_in(bytes, at, words, 2);
    lemma_word_in(bytes, at, words, 3);
    lemma_word_in(bytes, at, words, 4);
    lemma_word_in(bytes, at, words, 5);
    lemma_word_in(bytes, at, words, 6);
    lemma_word_in(bytes, at, words, 7);
    lemma_word_in(bytes, at, words, 8);
    lemma_word_in(bytes, at, words, 9);
    lemma_word_in(bytes, at, words, 10);
    lemma_word_in(bytes, at, words, 11);
    lemma_word_in(bytes, at, words, 12);
    lemma_word_in(bytes, at, words, 13);
    lemma_word_in(bytes, at, words, 14);
    assert(noise_word_refusal(bytes, at, 0) is None);
    assert(noise_word_refusal(bytes, at, 1) is None);
    assert(noise_word_refusal(bytes, at, 2) is None);
    assert(noise_word_refusal(bytes, at, 3) is None);
    assert(noise_word_refusal(bytes, at, 4) is None);
    assert(noise_word_refusal(bytes, at, 5) is None);
    assert(noise_word_refusal(bytes, at, 6) is None);
    assert(noise_word_refusal(bytes, at, 7) is None);
    assert(noise_word_refusal(bytes, at, 8) is None);
    assert(noise_word_refusal(bytes, at, 9) is None);
    assert(noise_word_refusal(bytes, at, 10) is None);
    assert(noise_word_refusal(bytes, at, 11) is None);
    assert(noise_word_refusal(bytes, at, 12) is None);
    assert(noise_word_refusal(bytes, at, 13) is None);
    assert(noise_word_refusal(bytes, at, 14) is None);
    reveal_with_fuel(noise_refusal, 16);
    law_tags_are_faithful();
    assert(noise_at(bytes, at) == noise);
}

pub(crate) proof fn lemma_stands_join(bytes: Seq<u8>, at: int, first: Seq<u8>, second: Seq<u8>)
    requires
        stands_at(bytes, at, first),
        stands_at(bytes, at + first.len(), second),
    ensures
        stands_at(bytes, at, first + second),
{
    let both = first + second;
    assert forall|i: int| 0 <= i < both.len() implies #[trigger] both[i] == bytes[at + i] by {
        if i < first.len() {
            assert(both[i] == first[i]);
        } else {
            assert(both[i] == second[i - first.len()]);
        }
    }
}

pub(crate) proof fn lemma_half_back(bytes: Seq<u8>, at: int)
    requires
        0 <= at,
        at + 2 <= bytes.len(),
    ensures
        stands_at(bytes, at, half_bytes(half_at(bytes, at))),
{
    let part = half_bytes(half_at(bytes, at));
    assert(part[0] == bytes[at]);
    assert(part[1] == bytes[at + 1]);
}

pub(crate) proof fn lemma_word_back(bytes: Seq<u8>, at: int)
    requires
        0 <= at,
        at + 4 <= bytes.len(),
    ensures
        stands_at(bytes, at, word_bytes(word_at(bytes, at))),
{
    let (b0, b1, b2, b3) = (bytes[at], bytes[at + 1], bytes[at + 2], bytes[at + 3]);
    let word = word_at(bytes, at);
    let part = word_bytes(word);
    lemma_digits(b0 as int, b1 as int, b2 as int, b3 as int);
    assert(part[0] == b0);
    assert(part[1] == b1);
    assert(part[2] == b2);
    assert(part[3] == b3);
}

proof fn lemma_digits(b0: int, b1: int, b2: int, b3: int)
    requires
        0 <= b0 < 256,
        0 <= b1 < 256,
        0 <= b2 < 256,
        0 <= b3 < 256,
    ensures
        ({
            let word = b0 + 256 * b1 + 65536 * b2 + 16777216 * b3;
            &&& 0 <= word <= u32::MAX
            &&& word % 256 == b0
            &&& word / 256 % 256 == b1
            &&& word / 65536 % 256 == b2
            &&& word / 16777216 == b3
        }),
{
    let word = b0 + 256 * b1 + 65536 * b2 + 16777216 * b3;
    let above = b1 + 256 * b2 + 65536 * b3;
    assert(word == b0 + 256 * above);
    assert(word / 256 == above);
    assert(word / 65536 == b2 + 256 * b3);
}

/// Slots that were read stand where they were read.
pub(crate) proof fn lemma_slots_back(bytes: Seq<u8>, at: int, slots: Seq<BufferSlot>)
    requires
        0 <= at,
        at + 2 * slots.len() <= bytes.len(),
        forall|i: int| 0 <= i < slots.len() ==> (#[trigger] slots[i]).0 == half_at(bytes, at + 2 * i),
    ensures
        stands_at(bytes, at, slots_bytes(slots)),
    decreases slots.len(),
{
    if slots.len() > 0 {
        let rest = slots.drop_last();
        lemma_slots_back(bytes, at, rest);
        lemma_slots_len(rest);
        assert(slots[slots.len() - 1].0 == half_at(bytes, at + 2 * (slots.len() - 1)));
        lemma_half_back(bytes, at + 2 * rest.len());
        lemma_stands_join(bytes, at, slots_bytes(rest), half_bytes(slots.last().0));
    }
}

/// Words that were read stand where they were read.
pub(crate) proof fn lemma_words_back(bytes: Seq<u8>, at: int, words: Seq<u32>)
    requires
        0 <= at,
        at + 4 * words.len() <= bytes.len(),
        forall|i: int| 0 <= i < words.len() ==> #[trigger] words[i] == word_at(bytes, at + 4 * i),
    ensures
        stands_at(bytes, at, words_bytes(words)),
    decreases words.len(),
{
    if words.len() > 0 {
        let rest = words.drop_last();
        lemma_words_back(bytes, at, rest);
        lemma_words_len(rest);
        assert(words[words.len() - 1] == word_at(bytes, at + 4 * (words.len() - 1)));
        lemma_word_back(bytes, at + 4 * rest.len());
        lemma_stands_join(bytes, at, words_bytes(rest), word_bytes(words.last()));
    }
}

proof fn lemma_noise_refusal_is_invalid(bytes: Seq<u8>, at: int, k: int)
    requires
        0 <= k,
    ensures
        noise_refusal(bytes, at, k) matches Some((error, _)) ==> error is InvalidSpec,
    decreases NOISE_WORDS - k,
{
    if k < NOISE_WORDS {
        lemma_noise_refusal_is_invalid(bytes, at, k + 1);
    }
}

pub(crate) proof fn lemma_read_noise_is_invalid(bytes: Seq<u8>, at: int)
    ensures
        read_noise(bytes, at).0 matches Err(error) ==> error is InvalidSpec,
{
    lemma_noise_refusal_is_invalid(bytes, at, 0);
}

proof fn lemma_no_refusal(bytes: Seq<u8>, at: int, from: int, k: int)
    requires
        noise_refusal(bytes, at, from) is None,
        0 <= from <= k < NOISE_WORDS,
    ensures
        noise_word_refusal(bytes, at, k) is None,
    decreases NOISE_WORDS - from,
{
    if from < k {
        lemma_no_refusal(bytes, at, from + 1, k);
    }
}

/// Noise settings that were read stand where they were read.
pub(crate) proof fn lemma_noise_back(bytes: Seq<u8>, at: int)
    requires
        0 <= at,
        noise_refusal(bytes, at, 0) is None,
    ensures
        at + 60 <= bytes.len(),
        stands_at(bytes, at, words_bytes(noise_words(noise_at(bytes, at)))),
{
    let words = noise_words(noise_at(bytes, at));
    lemma_no_refusal(bytes, at, 0, 2);
    lemma_no_refusal(bytes, at, 0, 3);
    lemma_no_refusal(bytes, at, 0, 4);
    lemma_no_refusal(bytes, at, 0, 10);
    lemma_no_refusal(bytes, at, 0, 11);
    lemma_no_refusal(bytes, at, 0, 13);
    lemma_no_refusal(bytes, at, 0, 14);
    law_tags_are_faithful();
    assert forall|i: int| 0 <= i < words.len() implies #[trigger] words[i] == word_at(
        bytes,
        at + 4 * i,
    ) by {}
    lemma_words_back(bytes, at, words);
}

/// The number in the two bytes from `at` on, the first of them counting least.
pub open spec fn half_value(bytes: Seq<u8>, at: int) -> int {
    bytes[at] + 256 * bytes[at + 1]
}

/// The number in the four bytes from `at` on, the first of them counting least.
pub open spec fn word_value(bytes: Seq<u8>, at: int) -> int {
    bytes[at] + 256 * bytes[at + 1] + 65536 * bytes[at + 2] + 16777216 * bytes[at + 3]
}

/// Each of the fifteen settings of noise stands in a word of its own from `at` on:
/// whole numbers in two's complement, other numbers as their bits, and what is
/// chosen from a list as its tag.
pub open spec fn settings_stand(bytes: Seq<u8>, at: int, noise: FastNoiseLite) -> bool {
    &&& 0 <= at && at + 60 <= bytes.len()
    &&& word_value(bytes, at) == noise.seed as int % 0x1_0000_0000
    &&& word_value(bytes, at + 4) == noise.frequency.0
    &&& word_value(bytes, at + 8) == noise_type_tag(noise.noise_type)
    &&& word_value(bytes, at + 12) == rotation_type_tag(noise.rotation_type_3d)
    &&& word_value(bytes, at + 16) == fractal_type_tag(noise.fractal_type)
    &&& word_value(bytes, at + 20) == noise.octaves as int % 0x1_0000_0000
    &&& word_value(bytes, at + 24) == noise.lacunarity.0
    &&& word_value(bytes, at + 28) == noise.gain.0
    &&& word_value(bytes, at + 32) == noise.weighted_strength.0
    &&& word_value(bytes, at + 36) == noise.ping_pong_strength.0
    &&& word_value(bytes, at + 40) == cellular_distance_function_tag(
        noise.cellular_distance_function,
    )
    &&& word_value(bytes, at + 44) == cellular_return_type_tag(noise.cellular_return_type)
    &&& word_value(bytes, at + 48) == noise.cellular_jitter_modifier.0
    &&& word_value(bytes, at + 52) == domain_warp_type_tag(noise.domain_warp_type)
    &&& word_value(bytes, at + 56) == noise.domain_warp_amp.0
}

/// Numbers are written with the byte that counts least first, signed ones in two's
/// complement.
pub proof fn law_numbers_are_little_endian(half: u16, word: u32, value: i32)
    ensures
        half_bytes(half).len() == 2,
        half_value(half_bytes(half), 0) == half,
        word_bytes(word).len() == 4,
        word_value(word_bytes(word), 0) == word,
        signed_word(value) as int == value as int % 0x1_0000_0000,
{
}

pub(crate) proof fn lemma_stands_alone(part: Seq<u8>)
    ensures
        stands_at(part, 0, part),
{
}

pub(crate) proof fn lemma_slots_stand(bytes: Seq<u8>, at: int, slots: Seq<BufferSlot>)
    requires
        stands_at(bytes, at, slots_bytes(slots)),
    ensures
        forall|i: int|
            0 <= i < slots.len() ==> (#[trigger] slots[i]).0 == half_value(bytes, at + 2 * i),
{
    assert forall|i: int| 0 <= i < slots.len() implies (#[trigger] slots[i]).0 == half_value(
        bytes,
        at + 2 * i,
    ) by {
        lemma_slot_in(bytes, at, slots, i);
    }
}

pub(crate) proof fn lemma_bits_stand(bytes: Seq<u8>, at: int, values: Seq<F32Bits>)
    requires
        stands_at(bytes, at, words_bytes(bits(values))),
    ensures
        forall|i: int|
            0 <= i < values.len() ==> (#[trigger] values[i]).0 == word_value(bytes, at + 4 * i),
{
    assert forall|i: int| 0 <= i < values.len() implies (#[trigger] values[i]).0 == word_value(
        bytes,
        at + 4 * i,
    ) by {
        lemma_word_in(bytes, at, bits(values), i);
    }
}

pub(crate) proof fn lemma_settings_stand(bytes: Seq<u8>, at: int, noise: FastNoiseLite)
    requires
        stands_at(bytes, at, words_bytes(noise_words(noise))),
    ensures
        settings_stand(bytes, at, noise),
{
    let words = noise_words(noise);
    lemma_words_len(words);
    law_numbers_are_little_endian(0, 0, noise.seed);
    law_numbers_are_little_endian(0, 0, noise.octaves);
    lemma_word_in(bytes, at, words, 0);
    lemma_word_in(bytes, at, words, 1);
    lemma_word_in(bytes, at, words, 2);
    lemma_word_in(bytes, at, words, 3);
    lemma_word_in(bytes, at, words, 4);
    lemma_word_in(bytes, at, words, 5);
    lemma_word_in(bytes, at, words, 6);
    lemma_word_in(bytes, at, words, 7);
    lemma_word_in(bytes, at, words, 8);
    lemma_word_in(bytes, at, words, 9);
    lemma_word_in(bytes, at, words, 10);
    lemma_word_in(bytes, at, words, 11);
    lemma_word_in(bytes, at, words, 12);
    lemma_word_in(bytes, at, words, 13);
    lemma_word_in(bytes, at, words, 14);
}

/// Settings of noise are read if and only if all their words are there and their
/// tags are among those that were given out. They are then those that stand there.
pub proof fn law_noise_is_read_where_it_stands(bytes: Seq<u8>, at: int)
    requires
        0 <= at <= bytes.len(),
    ensures
        read_noise(bytes, at).0 is Ok <==> {
            &&& at + 60 <= bytes.len()
            &&& word_value(bytes, at + 8) <= 5
            &&& word_value(bytes, at + 12) <= 2
            &&& word_value(bytes, at + 16) <= 5
            &&& word_value(bytes, at + 40) <= 3
            &&& word_value(bytes, at + 44) <= 6
            &&& word_value(bytes, at + 52) <= 2
        },
        read_noise(bytes, at) matches (Ok(noise), stop) ==> stop == at + 60 && settings_stand(
            bytes,
            at,
            noise,
        ),
{
    law_tags_are_bounded(word_at(bytes, at + 8));
    law_tags_are_bounded(word_at(bytes, at + 12));
    law_tags_are_bounded(word_at(bytes, at + 16));
    law_tags_are_bounded(word_at(bytes, at + 40));
    law_tags_are_bounded(word_at(bytes, at + 44));
    law_tags_are_bounded(word_at(bytes, at + 52));
    if noise_refusal(bytes, at, 0) is None {
        lemma_noise_back(bytes, at);
        lemma_settings_stand(bytes, at, noise_at(bytes, at));
        lemma_no_refusal(bytes, at, 0, 2);
        lemma_no_refusal(bytes, at, 0, 3);
        lemma_no_refusal(bytes, at, 0, 4);
        lemma_no_refusal(bytes, at, 0, 10);
        lemma_no_refusal(bytes, at, 0, 11);
        lemma_no_refusal(bytes, at, 0, 13);
    } else {
        lemma_some_refusal(bytes, at, 0);
    }
}

proof fn lemma_some_refusal(bytes: Seq<u8>, at: int, from: int) -> (k: int)
    requires
        noise_refusal(bytes, at, from) is Some,
        0 <= from,
    ensures
        from <= k < NOISE_WORDS,
        noise_word_refusal(bytes, at, k) is Some,
        (noise_refusal(bytes, at, from)->0).0 == noise_word_refusal(bytes, at, k)->0,
    decreases NOISE_WORDS - from,
{
    if noise_word_refusal(bytes, at, from) is Some {
        from
    } else {
        lemma_some_refusal(bytes, at, from + 1)
    }
}

/// Settings of noise that are refused are told to be cut off, where they are, or
/// to hold an unknown tag, which is named and given.
pub proof fn law_noise_is_refused_for_a_reason(bytes: Seq<u8>, at: int)
    requires
        0 <= at <= bytes.len(),
        read_noise(bytes, at).0 is Err,
    ensures
        ({
            let error = read_noise(bytes, at).0->Err_0;
            ||| error == ErrorView::InvalidSpec("kernel payload truncated"@) && at + 60
                > bytes.len()
            ||| error == unknown_tag("noise type tag"@, word_at(bytes, at + 8)) && word_value(
                bytes,
                at + 8,
            ) > 5
            ||| error == unknown_tag("rotation type tag"@, word_at(bytes, at + 12)) && word_value(
                bytes,
                at + 12,
            ) > 2
            ||| error == unknown_tag("fractal type tag"@, word_at(bytes, at + 16)) && word_value(
                bytes,
                at + 16,
            ) > 5
            ||| error == unknown_tag("cellular distance tag"@, word_at(bytes, at + 40))
                && word_value(bytes, at + 40) > 3
            ||| error == unknown_tag("cellular return tag"@, word_at(bytes, at + 44))
                && word_value(bytes, at + 44) > 6
            ||| error == unknown_tag("domain warp tag"@, word_at(bytes, at + 52)) && word_value(
                bytes,
                at + 52,
            ) > 2
        }),
{
    let k = lemma_some_refusal(bytes, at, 0);
    law_tags_are_bounded(word_at(bytes, at + 4 * k));
}

} // verus!

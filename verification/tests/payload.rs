use fastnoise::error::FastNoiseError;
use fastnoise::kernel_payload::{
    CombinePayload, KernelPayload, PlannerScratch, SamplePayload, WarpPayload,
};
use fastnoise::model::{BufferSlot, DispatchHint, FastNoiseKernel, PositionSlots};
use fastnoise::noise::{
    decode_cellular_distance_function, decode_cellular_return_type, decode_combine_op,
    decode_domain_warp_type, decode_fractal_type, decode_noise_type, decode_rotation_type,
    encode_cellular_distance_function, encode_cellular_return_type, encode_combine_op,
    encode_domain_warp_type, encode_fractal_type, encode_noise_type, encode_rotation_type,
    CellularDistanceFunction, CellularReturnType, CombineOp, DomainWarpType, F32Bits,
    FastNoiseLite, FractalType, NoiseType, RotationType3D,
};
use fastnoise::payload::{PayloadReader, PayloadWriter};

fn noise() -> FastNoiseLite {
    FastNoiseLite {
        seed: -7,
        frequency: F32Bits(0.02f32.to_bits()),
        noise_type: NoiseType::Perlin,
        rotation_type_3d: RotationType3D::ImproveXZPlanes,
        fractal_type: FractalType::PingPong,
        octaves: 5,
        lacunarity: F32Bits(2.5f32.to_bits()),
        gain: F32Bits(0.5f32.to_bits()),
        weighted_strength: F32Bits(0.25f32.to_bits()),
        ping_pong_strength: F32Bits(2.0f32.to_bits()),
        cellular_distance_function: CellularDistanceFunction::Hybrid,
        cellular_return_type: CellularReturnType::Distance2Div,
        cellular_jitter_modifier: F32Bits(0.9f32.to_bits()),
        domain_warp_type: DomainWarpType::BasicGrid,
        domain_warp_amp: F32Bits(30.0f32.to_bits()),
    }
}

fn refused(message: &str) -> FastNoiseError {
    FastNoiseError::InvalidSpec(message.to_string())
}

fn slots<const N: usize>(first: u16) -> PositionSlots<N> {
    let mut coords = [BufferSlot(0); N];
    for (place, slot) in coords.iter_mut().enumerate() {
        *slot = BufferSlot(first + place as u16);
    }
    PositionSlots { coords }
}

#[test]
fn words_are_little_endian() {
    let mut bytes: Vec<u8> = Vec::new();
    let mut writer = PayloadWriter::new(&mut bytes);
    writer.u16(0x1234);
    writer.u32(0x89ab_cdef);
    writer.i32(-2);
    writer.f32_bits(F32Bits(1.0f32.to_bits()));
    writer.slot(BufferSlot(258));
    let mut wanted: Vec<u8> = Vec::new();
    wanted.extend(0x1234u16.to_le_bytes());
    wanted.extend(0x89ab_cdefu32.to_le_bytes());
    wanted.extend((-2i32).to_le_bytes());
    wanted.extend(1.0f32.to_le_bytes());
    wanted.extend(258u16.to_le_bytes());
    assert_eq!(bytes, wanted);
}

#[test]
fn words_are_read_back() {
    let mut bytes: Vec<u8> = Vec::new();
    bytes.extend(0xfffeu16.to_le_bytes());
    bytes.extend(0x0102_0304u32.to_le_bytes());
    bytes.extend(i32::MIN.to_le_bytes());
    bytes.extend((-0.5f32).to_le_bytes());
    bytes.extend(9u16.to_le_bytes());
    let mut reader = PayloadReader::new(&bytes);
    assert_eq!(reader.u16(), Ok(0xfffe));
    assert_eq!(reader.u32(), Ok(0x0102_0304));
    assert_eq!(reader.i32(), Ok(i32::MIN));
    assert_eq!(reader.f32_bits(), Ok(F32Bits((-0.5f32).to_bits())));
    assert_eq!(reader.slot(), Ok(BufferSlot(9)));
    assert_eq!(reader.u16(), Err(refused("kernel payload truncated")));
}

#[test]
fn cut_off_words_are_refused_and_not_consumed() {
    let bytes = [1u8, 0, 0];
    let mut reader = PayloadReader::new(&bytes);
    assert_eq!(reader.u32(), Err(refused("kernel payload truncated")));
    assert_eq!(reader.offset, 0);
    assert_eq!(reader.u16(), Ok(1));
    assert_eq!(reader.read_exact::<1>(), Ok([0]));
    assert_eq!(
        reader.read_exact::<1>(),
        Err(refused("kernel payload truncated"))
    );
}

#[test]
fn settings_take_fifteen_words() {
    let mut bytes: Vec<u8> = Vec::new();
    PayloadWriter::new(&mut bytes).noise(&noise());
    assert_eq!(bytes.len(), 60);
    assert_eq!(bytes[0..4], (-7i32).to_le_bytes());
    assert_eq!(bytes[8..12], 3u32.to_le_bytes());
    assert_eq!(bytes[56..60], 30.0f32.to_le_bytes());
    assert_eq!(PayloadReader::new(&bytes).noise(), Ok(noise()));
}

#[test]
fn bad_settings_are_refused() {
    let labels = [
        (2, "unknown noise type tag 77"),
        (3, "unknown rotation type tag 77"),
        (4, "unknown fractal type tag 77"),
        (10, "unknown cellular distance tag 77"),
        (11, "unknown cellular return tag 77"),
        (13, "unknown domain warp tag 77"),
    ];
    for (word, message) in labels {
        let mut bytes: Vec<u8> = Vec::new();
        PayloadWriter::new(&mut bytes).noise(&noise());
        bytes[word * 4] = 77;
        assert_eq!(PayloadReader::new(&bytes).noise(), Err(refused(message)));
    }
}

#[test]
fn settings_that_are_cut_off_are_refused() {
    let mut bytes: Vec<u8> = Vec::new();
    PayloadWriter::new(&mut bytes).noise(&noise());
    for len in 0..60 {
        assert_eq!(
            PayloadReader::new(&bytes[..len]).noise(),
            Err(refused("kernel payload truncated"))
        );
    }
}

#[test]
fn tags_stand_for_their_settings() {
    for tag in 0..6 {
        assert_eq!(encode_noise_type(decode_noise_type(tag).unwrap()), tag);
        assert_eq!(encode_fractal_type(decode_fractal_type(tag).unwrap()), tag);
    }
    for tag in 0..3 {
        assert_eq!(encode_rotation_type(decode_rotation_type(tag).unwrap()), tag);
        assert_eq!(
            encode_domain_warp_type(decode_domain_warp_type(tag).unwrap()),
            tag
        );
    }
    for tag in 0..4 {
        assert_eq!(
            encode_cellular_distance_function(decode_cellular_distance_function(tag).unwrap()),
            tag
        );
    }
    for tag in 0..7 {
        assert_eq!(
            encode_cellular_return_type(decode_cellular_return_type(tag).unwrap()),
            tag
        );
    }
    for tag in 0..8 {
        assert_eq!(encode_combine_op(decode_combine_op(tag).unwrap()), tag);
    }
}

#[test]
fn tags_have_their_places() {
    assert_eq!(encode_noise_type(NoiseType::OpenSimplex2), 0);
    assert_eq!(encode_noise_type(NoiseType::Value), 5);
    assert_eq!(encode_rotation_type(RotationType3D::NoRotation), 0);
    assert_eq!(encode_fractal_type(FractalType::DomainWarpIndependent), 5);
    assert_eq!(encode_combine_op(CombineOp::Add), 0);
    assert_eq!(encode_combine_op(CombineOp::YGradient), 7);
}

#[test]
fn unknown_tags_are_refused() {
    assert_eq!(decode_noise_type(6), Err(refused("unknown noise type tag 6")));
    assert_eq!(
        decode_rotation_type(3),
        Err(refused("unknown rotation type tag 3"))
    );
    assert_eq!(
        decode_fractal_type(6),
        Err(refused("unknown fractal type tag 6"))
    );
    assert_eq!(
        decode_cellular_distance_function(4),
        Err(refused("unknown cellular distance tag 4"))
    );
    assert_eq!(
        decode_cellular_return_type(7),
        Err(refused("unknown cellular return tag 7"))
    );
    assert_eq!(
        decode_domain_warp_type(3),
        Err(refused("unknown domain warp tag 3"))
    );
    assert_eq!(
        decode_combine_op(4294967295),
        Err(refused("unknown combine op tag 4294967295"))
    );
}

#[test]
fn warps_are_read_back() {
    let mut scratch = PlannerScratch::new();
    let payload = WarpPayload::<2> {
        source: slots(3),
        output: slots(6),
        noise: noise(),
    };
    let kernel = payload.encode(&mut scratch).unwrap();
    assert_eq!(kernel.kind_id, FastNoiseKernel::Warp2d.kind());
    assert_eq!(kernel.payload.len(), 68);
    assert_eq!(kernel.payload[0..8], [3, 0, 4, 0, 6, 0, 7, 0]);
    assert!(kernel.bindings.is_empty());
    assert_eq!(kernel.dispatch, DispatchHint::WholeBatch);
    assert_eq!(
        WarpPayload::<2>::decode(FastNoiseKernel::Warp2d, &kernel.payload),
        Ok(payload)
    );
    let payload = WarpPayload::<3> {
        source: slots(3),
        output: slots(9),
        noise: noise(),
    };
    let kernel = payload.encode(&mut scratch).unwrap();
    assert_eq!(kernel.kind_id, FastNoiseKernel::Warp3d.kind());
    assert_eq!(kernel.payload.len(), 72);
    assert_eq!(
        WarpPayload::<3>::decode(FastNoiseKernel::Warp3d, &kernel.payload),
        Ok(payload)
    );
}

#[test]
fn samplings_are_read_back() {
    let mut scratch = PlannerScratch::new();
    let payload = SamplePayload::<2> {
        source: slots(3),
        output: BufferSlot(600),
        noise: noise(),
    };
    let kernel = payload.encode(&mut scratch).unwrap();
    assert_eq!(kernel.kind_id, FastNoiseKernel::Sample2d.kind());
    assert_eq!(kernel.payload.len(), 66);
    assert_eq!(
        SamplePayload::<2>::decode(FastNoiseKernel::Sample2d, &kernel.payload),
        Ok(payload)
    );
    let payload = SamplePayload::<3> {
        source: slots(3),
        output: BufferSlot(8),
        noise: noise(),
    };
    let kernel = payload.encode(&mut scratch).unwrap();
    assert_eq!(kernel.kind_id, FastNoiseKernel::Sample3d.kind());
    assert_eq!(kernel.payload.len(), 68);
    assert_eq!(
        SamplePayload::<3>::decode(FastNoiseKernel::Sample3d, &kernel.payload),
        Ok(payload)
    );
}

fn combination() -> CombinePayload {
    CombinePayload {
        op: CombineOp::Remap,
        inputs: vec![BufferSlot(7), BufferSlot(8)],
        output: BufferSlot(9),
        params: vec![F32Bits(0x3f80_0000), F32Bits(0xffff_ffff)],
    }
}

#[test]
fn combinations_are_read_back() {
    let mut scratch = PlannerScratch::new();
    let kernel = combination().encode(&mut scratch).unwrap();
    assert_eq!(kernel.kind_id, FastNoiseKernel::Combine.kind());
    assert_eq!(
        kernel.payload,
        vec![
            6, 0, 0, 0, 2, 0, 0, 0, 7, 0, 8, 0, 9, 0, 2, 0, 0, 0, 0, 0, 128, 63, 255, 255, 255,
            255
        ]
    );
    assert_eq!(
        CombinePayload::decode(FastNoiseKernel::Combine, &kernel.payload),
        Ok(combination())
    );
}

#[test]
fn what_follows_a_payload_does_not_matter() {
    let mut scratch = PlannerScratch::new();
    let mut bytes = combination().encode(&mut scratch).unwrap().payload;
    bytes.extend([1, 2, 3]);
    assert_eq!(
        CombinePayload::decode(FastNoiseKernel::Combine, &bytes),
        Ok(combination())
    );
}

#[test]
fn combinations_that_are_cut_off_are_refused() {
    let mut scratch = PlannerScratch::new();
    let bytes = combination().encode(&mut scratch).unwrap().payload;
    for len in 0..bytes.len() {
        assert_eq!(
            CombinePayload::decode(FastNoiseKernel::Combine, &bytes[..len]),
            Err(refused("kernel payload truncated"))
        );
    }
    let mut bad = bytes;
    bad[0] = 8;
    assert_eq!(
        CombinePayload::decode(FastNoiseKernel::Combine, &bad),
        Err(refused("unknown combine op tag 8"))
    );
}

#[test]
fn read_payload_is_written_back() {
    let mut scratch = PlannerScratch::new();
    let bytes = combination().encode(&mut scratch).unwrap().payload;
    let read = CombinePayload::decode(FastNoiseKernel::Combine, &bytes).unwrap();
    assert_eq!(read.encode(&mut scratch).unwrap().payload, bytes);
    assert_eq!(scratch.bytes.len(), 0);
}

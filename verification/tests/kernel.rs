use fastnoise::combine::{
    expect_input, expect_params, expect_two_inputs, validate_combine_contract,
};
use fastnoise::error::FastNoiseError;
use fastnoise::kernel::{
    CombineKernel, FastNoiseKernelFactory, Formula, GridInitKernel, PairOp, PreparedKernel,
    SampleKernel, WarpKernel,
};
use fastnoise::kernel_payload::{
    CombinePayload, KernelPayload, PlannerScratch, SamplePayload, WarpPayload,
};
use fastnoise::model::{
    BufferSlot, DispatchHint, FastNoiseKernel, GraphDimension, KernelSpec, PositionSlots,
};
use fastnoise::noise::{
    CellularDistanceFunction, CellularReturnType, CombineOp, DomainWarpType, F32Bits,
    FastNoiseLite, FractalType, NoiseType, RotationType3D,
};
use fastnoise::walk::{SampleStep, SampleWalk};

fn noise() -> FastNoiseLite {
    FastNoiseLite {
        seed: 1337,
        frequency: F32Bits(0.01f32.to_bits()),
        noise_type: NoiseType::Cellular,
        rotation_type_3d: RotationType3D::ImproveXYPlanes,
        fractal_type: FractalType::FBm,
        octaves: 4,
        lacunarity: F32Bits(2.0f32.to_bits()),
        gain: F32Bits(0.5f32.to_bits()),
        weighted_strength: F32Bits(0),
        ping_pong_strength: F32Bits(2.0f32.to_bits()),
        cellular_distance_function: CellularDistanceFunction::Manhattan,
        cellular_return_type: CellularReturnType::CellValue,
        cellular_jitter_modifier: F32Bits(1.0f32.to_bits()),
        domain_warp_type: DomainWarpType::OpenSimplex2Reduced,
        domain_warp_amp: F32Bits(1.0f32.to_bits()),
    }
}

fn slot_list(numbers: &[u16]) -> Vec<BufferSlot> {
    numbers.iter().map(|number| BufferSlot(*number)).collect()
}

fn bare(kind_id: u32, payload: Vec<u8>) -> KernelSpec {
    KernelSpec {
        kind_id,
        payload,
        bindings: vec![],
        dispatch: DispatchHint::WholeBatch,
    }
}

fn refused(message: &str) -> FastNoiseError {
    FastNoiseError::InvalidSpec(message.to_string())
}

fn combine(op: CombineOp, inputs: &[u16], params: &[f32]) -> CombineKernel {
    CombineKernel {
        op,
        inputs: slot_list(inputs),
        output: BufferSlot(20),
        params: params.iter().map(|value| F32Bits(value.to_bits())).collect(),
    }
}

#[test]
fn unknown_kinds_are_rejected() {
    let factory = FastNoiseKernelFactory;
    assert_eq!(
        factory.prepare(&bare(7, vec![])),
        Err(FastNoiseError::BackendRejectedKernel(7))
    );
    assert_eq!(
        factory.prepare(&bare(u32::MAX, vec![])),
        Err(FastNoiseError::BackendRejectedKernel(u32::MAX))
    );
}

#[test]
fn grid_kernels_need_no_payload() {
    let factory = FastNoiseKernelFactory;
    assert_eq!(
        factory.prepare(&bare(FastNoiseKernel::InitGrid2d.kind(), vec![])),
        Ok(PreparedKernel::GridInit(GridInitKernel {
            dimension: GraphDimension::D2
        }))
    );
    assert_eq!(
        factory.prepare(&bare(FastNoiseKernel::InitGrid3d.kind(), vec![1, 2, 3])),
        Ok(PreparedKernel::GridInit(GridInitKernel {
            dimension: GraphDimension::D3
        }))
    );
}

#[test]
fn truncated_payloads_are_refused() {
    let factory = FastNoiseKernelFactory;
    for kernel in [
        FastNoiseKernel::Warp2d,
        FastNoiseKernel::Warp3d,
        FastNoiseKernel::Sample2d,
        FastNoiseKernel::Sample3d,
        FastNoiseKernel::Combine,
    ] {
        assert_eq!(
            factory.prepare(&bare(kernel.kind(), vec![0, 0])),
            Err(refused("kernel payload truncated"))
        );
    }
}

#[test]
fn warps_are_prepared_and_run() {
    let mut scratch = PlannerScratch::new();
    let source = PositionSlots {
        coords: [BufferSlot(3), BufferSlot(4)],
    };
    let output = PositionSlots {
        coords: [BufferSlot(6), BufferSlot(7)],
    };
    let spec = WarpPayload::<2> {
        source,
        output,
        noise: noise(),
    }
    .encode(&mut scratch)
    .unwrap();
    let kernel = WarpKernel {
        source,
        output,
        noise: noise(),
    };
    assert_eq!(
        FastNoiseKernelFactory.prepare(&spec),
        Ok(PreparedKernel::Warp2d(kernel))
    );
    assert_eq!(kernel.outputs(), slot_list(&[6, 7]));
    let run = kernel.run(&[0, 5]);
    assert_eq!(run.bound, slot_list(&[3, 4, 6, 7]));
    assert_eq!(run.formula, Formula::Warp2d(noise()));
    assert_eq!(run.walk, SampleWalk::new(5, 4096));
}

#[test]
fn warps_in_space_are_prepared_and_run() {
    let mut scratch = PlannerScratch::new();
    let source = PositionSlots {
        coords: [BufferSlot(3), BufferSlot(4), BufferSlot(5)],
    };
    let output = PositionSlots {
        coords: [BufferSlot(9), BufferSlot(10), BufferSlot(11)],
    };
    let spec = WarpPayload::<3> {
        source,
        output,
        noise: noise(),
    }
    .encode(&mut scratch)
    .unwrap();
    let kernel = WarpKernel {
        source,
        output,
        noise: noise(),
    };
    assert_eq!(
        FastNoiseKernelFactory.prepare(&spec),
        Ok(PreparedKernel::Warp3d(kernel))
    );
    let run = kernel.run(&[0, 2, 9]);
    assert_eq!(run.bound, slot_list(&[3, 4, 5, 9, 10, 11]));
    assert_eq!(run.formula, Formula::Warp3d(noise()));
    assert_eq!(run.walk, SampleWalk::new(9, 2048));
}

#[test]
fn samplings_are_prepared_and_run() {
    let mut scratch = PlannerScratch::new();
    let source = PositionSlots {
        coords: [BufferSlot(3), BufferSlot(4)],
    };
    let spec = SamplePayload::<2> {
        source,
        output: BufferSlot(12),
        noise: noise(),
    }
    .encode(&mut scratch)
    .unwrap();
    let kernel = SampleKernel {
        source,
        output: BufferSlot(12),
        noise: noise(),
    };
    assert_eq!(
        FastNoiseKernelFactory.prepare(&spec),
        Ok(PreparedKernel::Sample2d(kernel))
    );
    assert_eq!(kernel.outputs(), slot_list(&[12]));
    let run = kernel.run(&[]);
    assert_eq!(run.bound, slot_list(&[3, 4, 12]));
    assert_eq!(run.formula, Formula::Sample2d(noise()));
    assert_eq!(run.walk, SampleWalk::new(0, 4096));
}

#[test]
fn samplings_in_space_are_prepared_and_run() {
    let mut scratch = PlannerScratch::new();
    let source = PositionSlots {
        coords: [BufferSlot(6), BufferSlot(7), BufferSlot(8)],
    };
    let spec = SamplePayload::<3> {
        source,
        output: BufferSlot(12),
        noise: noise(),
    }
    .encode(&mut scratch)
    .unwrap();
    let kernel = SampleKernel {
        source,
        output: BufferSlot(12),
        noise: noise(),
    };
    assert_eq!(
        FastNoiseKernelFactory.prepare(&spec),
        Ok(PreparedKernel::Sample3d(kernel))
    );
    let run = kernel.run(&[0, 3]);
    assert_eq!(run.bound, slot_list(&[6, 7, 8, 12]));
    assert_eq!(run.formula, Formula::Sample3d(noise()));
    assert_eq!(run.walk, SampleWalk::new(3, 2048));
}

#[test]
fn combinations_are_prepared() {
    let mut scratch = PlannerScratch::new();
    let spec = CombinePayload {
        op: CombineOp::Sub,
        inputs: slot_list(&[6, 7]),
        output: BufferSlot(20),
        params: vec![],
    }
    .encode(&mut scratch)
    .unwrap();
    assert_eq!(
        FastNoiseKernelFactory.prepare(&spec),
        Ok(PreparedKernel::Combine(combine(CombineOp::Sub, &[6, 7], &[])))
    );
}

#[test]
fn operations_on_two_fields_run() {
    let ops = [
        (CombineOp::Add, PairOp::Add),
        (CombineOp::Sub, PairOp::Sub),
        (CombineOp::Mul, PairOp::Mul),
        (CombineOp::Min, PairOp::Min),
        (CombineOp::Max, PairOp::Max),
    ];
    for (op, pair) in ops {
        let kernel = combine(op, &[6, 7], &[]);
        assert_eq!(kernel.outputs(), slot_list(&[20]));
        let mut run = kernel.run(&[0, 1]).unwrap();
        assert_eq!(run.bound, slot_list(&[6, 7, 20]));
        assert_eq!(run.formula, Formula::Pair(pair));
        assert_eq!(run.walk, SampleWalk::new(1, 4096));
        assert_eq!(run.walk.next_step(false), Ok(SampleStep::Evaluate(0)));
    }
}

#[test]
fn operations_on_one_field_run() {
    let bits = |value: f32| F32Bits(value.to_bits());
    let run = combine(CombineOp::Clamp, &[6], &[-1.0, 1.0]).run(&[0, 4]).unwrap();
    assert_eq!(run.bound, slot_list(&[6, 20]));
    assert_eq!(
        run.formula,
        Formula::Clamp {
            min: bits(-1.0),
            max: bits(1.0)
        }
    );
    let run = combine(CombineOp::Remap, &[6], &[0.0, 1.0, 2.0, 3.0])
        .run(&[0, 4])
        .unwrap();
    assert_eq!(run.bound, slot_list(&[6, 20]));
    assert_eq!(
        run.formula,
        Formula::Remap {
            src_min: bits(0.0),
            src_max: bits(1.0),
            dst_min: bits(2.0),
            dst_max: bits(3.0)
        }
    );
    assert_eq!(run.walk, SampleWalk::new(4, 4096));
    let run = combine(CombineOp::YGradient, &[6], &[0.0, 1.0, 2.0, 3.0])
        .run(&[0, 4])
        .unwrap();
    assert_eq!(run.bound, slot_list(&[6, 4, 20]));
    assert_eq!(
        run.formula,
        Formula::YGradient {
            y_min: bits(0.0),
            y_max: bits(1.0),
            out_min: bits(2.0),
            out_max: bits(3.0)
        }
    );
    assert_eq!(run.walk, SampleWalk::new(4, 2048));
}

#[test]
fn combinations_with_wrong_inputs_do_not_run() {
    assert_eq!(
        combine(CombineOp::Add, &[], &[]).run(&[]),
        Err(refused("combine op expects 2 inputs, but got none"))
    );
    assert_eq!(
        combine(CombineOp::Max, &[1], &[]).run(&[]),
        Err(refused("combine op expects 2 inputs, but got only 1"))
    );
    assert_eq!(
        combine(CombineOp::Mul, &[1, 2, 3], &[]).run(&[]),
        Err(refused("combine op expects 2 inputs, but got more than 2"))
    );
    assert_eq!(
        combine(CombineOp::Clamp, &[], &[0.0, 1.0]).run(&[]),
        Err(refused("combine op expects 1 input, but got none"))
    );
    assert_eq!(
        combine(CombineOp::Remap, &[1, 2], &[0.0; 4]).run(&[]),
        Err(refused("combine op expects 1 input, but got more than 1"))
    );
}

#[test]
fn parameters_are_looked_at_before_inputs() {
    assert_eq!(
        combine(CombineOp::Clamp, &[], &[0.0]).run(&[]),
        Err(refused("combine op Clamp expects 2 parameters, got 1"))
    );
    assert_eq!(
        combine(CombineOp::YGradient, &[1, 2], &[]).run(&[]),
        Err(refused("combine op YGradient expects 4 parameters, got 0"))
    );
}

#[test]
fn parameters_of_pairs_are_not_looked_at() {
    assert!(combine(CombineOp::Add, &[1, 2], &[0.0]).run(&[]).is_ok());
}

#[test]
fn contracts_of_combinations_are_checked() {
    for op in [
        CombineOp::Add,
        CombineOp::Sub,
        CombineOp::Mul,
        CombineOp::Min,
        CombineOp::Max,
    ] {
        assert_eq!(validate_combine_contract(op, 2, 0), Ok(()));
    }
    assert_eq!(validate_combine_contract(CombineOp::Clamp, 1, 2), Ok(()));
    assert_eq!(validate_combine_contract(CombineOp::Remap, 1, 4), Ok(()));
    assert_eq!(validate_combine_contract(CombineOp::YGradient, 1, 4), Ok(()));
    assert_eq!(
        validate_combine_contract(CombineOp::Add, 3, 1),
        Err(refused("combine op Add expects 2 inputs, got 3"))
    );
    assert_eq!(
        validate_combine_contract(CombineOp::Min, 2, 12),
        Err(refused("combine op Min expects 0 parameters, got 12"))
    );
    assert_eq!(
        validate_combine_contract(CombineOp::Remap, 1, 3),
        Err(refused("combine op Remap expects 4 parameters, got 3"))
    );
}

#[test]
fn inputs_and_parameters_are_taken_apart() {
    assert_eq!(
        expect_two_inputs(&slot_list(&[5, 6])),
        Ok((BufferSlot(5), BufferSlot(6)))
    );
    assert_eq!(expect_input(&slot_list(&[5])), Ok(BufferSlot(5)));
    assert_eq!(
        expect_params::<2>(&[F32Bits(1), F32Bits(2)], CombineOp::Clamp),
        Ok([F32Bits(1), F32Bits(2)])
    );
    assert_eq!(
        expect_params::<2>(&[F32Bits(1)], CombineOp::Clamp),
        Err(refused("combine op Clamp expects 2 parameters, got 1"))
    );
}

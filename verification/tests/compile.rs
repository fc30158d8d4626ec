use fastnoise::compile::{compile_graph, may_compile};
use fastnoise::error::{FastNoiseError, FastNoiseResult};
use fastnoise::graph::{
    base_position_slots_2, base_position_slots_3, collect_dependencies, resolve_node,
    CompileNodes,
};
use fastnoise::kernel::{FastNoiseKernelFactory, PreparedKernel};
use fastnoise::kernel_payload::PlannerScratch;
use fastnoise::model::{
    BufferAccess, BufferLayout, BufferSlot, CombineNode, CompiledPlan, ElementKind,
    FastNoiseGraphSpec, FastNoiseKernel, GraphDimension, NodeSpec, OutputKind, PositionSource,
    SampleNode, WarpNode,
};
use fastnoise::noise::{
    CellularDistanceFunction, CellularReturnType, CombineOp, DomainWarpType, F32Bits,
    FastNoiseLite, FractalType, NoiseType, RotationType3D,
};
use fastnoise::order::NodeHandle;
use fastnoise::planner::FastNoisePlanner;
use fastnoise::schedule::schedule;
use fastnoise::state::FastNoiseState;

fn noise(seed: i32) -> FastNoiseLite {
    FastNoiseLite {
        seed,
        frequency: F32Bits(0.01f32.to_bits()),
        noise_type: NoiseType::ValueCubic,
        rotation_type_3d: RotationType3D::NoRotation,
        fractal_type: FractalType::Ridged,
        octaves: 3,
        lacunarity: F32Bits(2.0f32.to_bits()),
        gain: F32Bits(0.5f32.to_bits()),
        weighted_strength: F32Bits(0),
        ping_pong_strength: F32Bits(2.0f32.to_bits()),
        cellular_distance_function: CellularDistanceFunction::Euclidean,
        cellular_return_type: CellularReturnType::Distance2Add,
        cellular_jitter_modifier: F32Bits(1.0f32.to_bits()),
        domain_warp_type: DomainWarpType::OpenSimplex2,
        domain_warp_amp: F32Bits(1.0f32.to_bits()),
    }
}

fn source(from: &str) -> PositionSource {
    if from.is_empty() {
        PositionSource::Base
    } else {
        PositionSource::Node(from.to_string())
    }
}

fn warp2(id: &str, from: &str) -> NodeSpec {
    NodeSpec::Warp2D(WarpNode {
        id: id.to_string(),
        source: source(from),
        noise: noise(2),
    })
}

fn warp3(id: &str, from: &str) -> NodeSpec {
    NodeSpec::Warp3D(WarpNode {
        id: id.to_string(),
        source: source(from),
        noise: noise(3),
    })
}

fn sample2(id: &str, from: &str) -> NodeSpec {
    NodeSpec::Sample2D(SampleNode {
        id: id.to_string(),
        source: source(from),
        noise: noise(4),
    })
}

fn sample3(id: &str, from: &str) -> NodeSpec {
    NodeSpec::Sample3D(SampleNode {
        id: id.to_string(),
        source: source(from),
        noise: noise(5),
    })
}

fn mix(id: &str, op: CombineOp, inputs: &[&str], params: &[f32]) -> NodeSpec {
    NodeSpec::Combine(CombineNode {
        id: id.to_string(),
        op,
        inputs: inputs.iter().map(|name| name.to_string()).collect(),
        params: params.iter().map(|value| F32Bits(value.to_bits())).collect(),
    })
}

fn state_of(dimension: GraphDimension, last: &str, nodes: Vec<NodeSpec>) -> FastNoiseState {
    FastNoiseState::from_spec(&FastNoiseGraphSpec {
        dimension,
        final_field: last.to_string(),
        nodes,
    })
    .unwrap()
}

fn compile(
    dimension: GraphDimension,
    last: &str,
    nodes: Vec<NodeSpec>,
) -> FastNoiseResult<CompiledPlan> {
    let mut scratch = PlannerScratch::new();
    compile_graph(&state_of(dimension, last, nodes), &mut scratch)
}

fn kernels(plan: &CompiledPlan) -> Vec<PreparedKernel> {
    plan.pipeline
        .stages
        .iter()
        .map(|stage| {
            assert_eq!(stage.kernels.len(), 1);
            FastNoiseKernelFactory.prepare(&stage.kernels[0]).unwrap()
        })
        .collect()
}

fn refused(message: &str) -> FastNoiseError {
    FastNoiseError::InvalidSpec(message.to_string())
}

#[test]
fn single_sampling_compiles() {
    let plan = compile(GraphDimension::D2, "n", vec![sample2("n", "")]).unwrap();
    assert_eq!(plan.planner_meta.dimension, GraphDimension::D2);
    assert_eq!(plan.planner_meta.final_slot, BufferSlot(6));
    assert!(plan.static_buffers.is_empty());
    let slots: Vec<u16> = plan.pipeline.buffers.iter().map(|buffer| buffer.slot.0).collect();
    assert_eq!(slots, vec![0, 1, 2, 3, 4, 6]);
    let words: Vec<bool> = plan
        .pipeline
        .buffers
        .iter()
        .map(|buffer| buffer.element_kind == ElementKind::U32)
        .collect();
    assert_eq!(words, vec![true, false, true, false, false, false]);
    assert!(plan
        .pipeline
        .buffers
        .iter()
        .all(|buffer| buffer.layout == BufferLayout::Dynamic));
    let first = &plan.pipeline.stages[0].kernels[0];
    assert_eq!(first.kind_id, FastNoiseKernel::InitGrid2d.kind());
    assert!(first.payload.is_empty());
    let bound: Vec<u16> = first.bindings.iter().map(|binding| binding.slot.0).collect();
    assert_eq!(bound, vec![0, 1, 2]);
    assert!(first
        .bindings
        .iter()
        .all(|binding| binding.access == BufferAccess::Read));
    match &kernels(&plan)[1] {
        PreparedKernel::Sample2d(kernel) => {
            assert_eq!(kernel.source.coords, [BufferSlot(3), BufferSlot(4)]);
            assert_eq!(kernel.output, BufferSlot(6));
            assert_eq!(kernel.noise, noise(4));
        }
        other => panic!("{:?}", other),
    }
}

#[test]
fn graph_in_space_has_a_third_coordinate() {
    let plan = compile(
        GraphDimension::D3,
        "n",
        vec![sample3("n", "w"), warp3("w", "")],
    )
    .unwrap();
    let slots: Vec<u16> = plan.pipeline.buffers.iter().map(|buffer| buffer.slot.0).collect();
    assert_eq!(slots, vec![0, 1, 2, 3, 4, 5, 6, 7, 8, 9]);
    let kernels = kernels(&plan);
    assert_eq!(kernels.len(), 3);
    match &kernels[1] {
        PreparedKernel::Warp3d(kernel) => {
            assert_eq!(
                kernel.source.coords,
                [BufferSlot(3), BufferSlot(4), BufferSlot(5)]
            );
            assert_eq!(
                kernel.output.coords,
                [BufferSlot(6), BufferSlot(7), BufferSlot(8)]
            );
        }
        other => panic!("{:?}", other),
    }
    match &kernels[2] {
        PreparedKernel::Sample3d(kernel) => {
            assert_eq!(
                kernel.source.coords,
                [BufferSlot(6), BufferSlot(7), BufferSlot(8)]
            );
            assert_eq!(kernel.output, BufferSlot(9));
        }
        other => panic!("{:?}", other),
    }
    assert_eq!(plan.planner_meta.final_slot, BufferSlot(9));
}

#[test]
fn nodes_run_first_come_first_served() {
    let plan = compile(
        GraphDimension::D2,
        "sum",
        vec![
            mix("sum", CombineOp::Add, &["b", "a"], &[]),
            sample2("a", "w"),
            warp2("w", ""),
            sample2("b", ""),
        ],
    )
    .unwrap();
    let kernels = kernels(&plan);
    assert!(matches!(kernels[0], PreparedKernel::GridInit(_)));
    match &kernels[1] {
        PreparedKernel::Warp2d(kernel) => {
            assert_eq!(kernel.output.coords, [BufferSlot(6), BufferSlot(7)])
        }
        other => panic!("{:?}", other),
    }
    match &kernels[2] {
        PreparedKernel::Sample2d(kernel) => assert_eq!(kernel.output, BufferSlot(8)),
        other => panic!("{:?}", other),
    }
    match &kernels[3] {
        PreparedKernel::Sample2d(kernel) => assert_eq!(kernel.output, BufferSlot(9)),
        other => panic!("{:?}", other),
    }
    match &kernels[4] {
        PreparedKernel::Combine(kernel) => {
            assert_eq!(kernel.inputs, vec![BufferSlot(8), BufferSlot(9)]);
            assert_eq!(kernel.output, BufferSlot(10));
            assert!(kernel.run(&[0, 3]).is_ok());
        }
        other => panic!("{:?}", other),
    }
    assert_eq!(plan.planner_meta.final_slot, BufferSlot(10));
}

#[test]
fn node_may_be_read_twice() {
    let plan = compile(
        GraphDimension::D2,
        "sum",
        vec![
            mix("sum", CombineOp::Mul, &["a", "a"], &[]),
            sample2("a", ""),
        ],
    )
    .unwrap();
    match &kernels(&plan)[2] {
        PreparedKernel::Combine(kernel) => {
            assert_eq!(kernel.inputs, vec![BufferSlot(6), BufferSlot(6)])
        }
        other => panic!("{:?}", other),
    }
}

#[test]
fn missing_names_are_refused() {
    assert_eq!(
        compile(GraphDimension::D2, "n", vec![sample2("n", "gone")]),
        Err(refused("missing node 'gone'"))
    );
    assert_eq!(
        compile(GraphDimension::D2, "other", vec![sample2("n", "")]),
        Err(refused("missing node 'other'"))
    );
    assert_eq!(
        compile(
            GraphDimension::D2,
            "other",
            vec![mix("n", CombineOp::Add, &["x", "y"], &[])]
        ),
        Err(refused("missing node 'x'"))
    );
}

#[test]
fn cycles_are_refused() {
    assert_eq!(
        compile(
            GraphDimension::D2,
            "a",
            vec![warp2("a", "b"), warp2("b", "a")]
        ),
        Err(refused("cycle detected in fastnoise graph"))
    );
    assert_eq!(
        compile(
            GraphDimension::D2,
            "s",
            vec![sample2("s", ""), warp2("a", "a")]
        ),
        Err(refused("cycle detected in fastnoise graph"))
    );
}

#[test]
fn positions_must_come_from_positions() {
    assert_eq!(
        compile(
            GraphDimension::D2,
            "b",
            vec![sample2("a", ""), sample2("b", "a")]
        ),
        Err(refused("missing position slots"))
    );
    assert_eq!(
        compile(
            GraphDimension::D2,
            "b",
            vec![warp3("w", ""), sample2("b", "w")]
        ),
        Err(refused("missing position slots"))
    );
}

#[test]
fn fields_must_come_from_fields() {
    assert_eq!(
        compile(
            GraphDimension::D2,
            "m",
            vec![
                warp2("w", ""),
                mix("m", CombineOp::Clamp, &["w"], &[0.0, 1.0])
            ]
        ),
        Err(refused("missing scalar slot"))
    );
    assert_eq!(
        compile(GraphDimension::D2, "w", vec![warp2("w", "")]),
        Err(refused("missing scalar slot"))
    );
}

#[test]
fn wrong_numbers_of_inputs_and_parameters_are_refused() {
    assert_eq!(
        compile(
            GraphDimension::D2,
            "m",
            vec![warp2("w", ""), mix("m", CombineOp::Sub, &["w"], &[])]
        ),
        Err(refused("combine op Sub expects 2 inputs, got 1"))
    );
    assert_eq!(
        compile(
            GraphDimension::D2,
            "m",
            vec![
                sample2("s", ""),
                mix("m", CombineOp::Clamp, &["s"], &[1.0, 2.0, 3.0])
            ]
        ),
        Err(refused("combine op Clamp expects 2 parameters, got 3"))
    );
}

#[test]
fn reads_come_after_writes() {
    let plan = compile(
        GraphDimension::D3,
        "out",
        vec![
            mix("out", CombineOp::YGradient, &["mix"], &[0.0, 1.0, 2.0, 3.0]),
            mix("mix", CombineOp::Max, &["p", "q"], &[]),
            sample3("p", "w"),
            sample3("q", ""),
            warp3("w", "v"),
            warp3("v", ""),
        ],
    )
    .unwrap();
    let mut written: Vec<BufferSlot> = vec![BufferSlot(3), BufferSlot(4), BufferSlot(5)];
    for kernel in &kernels(&plan)[1..] {
        let (run, outputs) = match kernel {
            PreparedKernel::Warp3d(kernel) => (kernel.run(&[0, 1]), kernel.outputs()),
            PreparedKernel::Sample3d(kernel) => (kernel.run(&[0, 1]), kernel.outputs()),
            PreparedKernel::Combine(kernel) => {
                (kernel.run(&[0, 1]).unwrap(), kernel.outputs())
            }
            other => panic!("{:?}", other),
        };
        let reads = &run.bound[..run.bound.len() - outputs.len()];
        assert!(reads.iter().all(|slot| written.contains(slot)));
        assert!(outputs.iter().all(|slot| !written.contains(slot)));
        written.extend(outputs);
    }
    assert!(written.contains(&plan.planner_meta.final_slot));
}

#[test]
fn planner_compiles_what_it_was_given() {
    let planner = FastNoisePlanner;
    let state = state_of(GraphDimension::D2, "n", vec![sample2("n", "")]);
    let mut scratch = PlannerScratch::new();
    assert_eq!(
        planner.compile(&state, &mut scratch),
        compile(GraphDimension::D2, "n", vec![sample2("n", "")])
    );
}

#[test]
fn nodes_are_found_by_name() {
    let state = state_of(
        GraphDimension::D2,
        "m",
        vec![
            warp2("w", ""),
            sample2("s", "w"),
            mix("m", CombineOp::Add, &["s", "s"], &[]),
        ],
    );
    let graph = CompileNodes::build(&state).unwrap();
    assert_eq!(graph.len(), 3);
    let handles = graph.handles();
    assert_eq!(handles, vec![NodeHandle(0), NodeHandle(1), NodeHandle(2)]);
    assert_eq!(handles[2].index(), 2);
    assert_eq!(graph.node(handles[1]).id(), "s");
    assert_eq!(
        graph.output(handles[0]),
        OutputKind::Position(GraphDimension::D2)
    );
    assert_eq!(
        graph.output(handles[2]),
        OutputKind::Scalar(GraphDimension::D2)
    );
    assert_eq!(graph.resolve("m"), Some(NodeHandle(2)));
    assert_eq!(graph.resolve("x"), None);
    assert_eq!(resolve_node(&graph, "s"), Ok(NodeHandle(1)));
    assert_eq!(
        resolve_node(&graph, "x"),
        Err(refused("missing node 'x'"))
    );
    assert_eq!(collect_dependencies(&graph, NodeHandle(0)), Ok(vec![]));
    assert_eq!(
        collect_dependencies(&graph, NodeHandle(1)),
        Ok(vec![NodeHandle(0)])
    );
    assert_eq!(
        collect_dependencies(&graph, NodeHandle(2)),
        Ok(vec![NodeHandle(1), NodeHandle(1)])
    );
}

#[test]
fn grid_positions_have_fixed_slots() {
    assert_eq!(
        base_position_slots_2().coords,
        [BufferSlot(3), BufferSlot(4)]
    );
    assert_eq!(
        base_position_slots_3().coords,
        [BufferSlot(3), BufferSlot(4), BufferSlot(5)]
    );
}

#[test]
fn schedules_follow_dependencies() {
    let handle = |number: usize| NodeHandle(number);
    let deps = vec![
        vec![handle(2), handle(1)],
        vec![],
        vec![handle(3)],
        vec![],
    ];
    assert_eq!(
        schedule(&deps),
        Some(vec![handle(1), handle(3), handle(2), handle(0)])
    );
    assert_eq!(schedule(&vec![]), Some(vec![]));
    assert_eq!(schedule(&vec![vec![handle(0)]]), None);
    assert_eq!(
        schedule(&vec![vec![handle(1)], vec![handle(2)], vec![handle(1)]]),
        None
    );
}

#[test]
fn slots_are_counted_before_they_are_handed_out() {
    let warps = |count: usize| -> FastNoiseState {
        let nodes = (0..count).map(|number| warp3(&number.to_string(), "")).collect();
        state_of(GraphDimension::D3, "0", nodes)
    };
    assert!(may_compile(&warps(2)));
    let mut state = warps(21_843);
    assert!(may_compile(&state));
    state.upsert_node(sample3("last", "")).unwrap();
    assert!(!may_compile(&state));
    state.upsert_node(warp3("round", "round")).unwrap();
    assert!(may_compile(&state));
    let mut scratch = PlannerScratch::new();
    assert_eq!(
        compile_graph(&state, &mut scratch),
        Err(refused("cycle detected in fastnoise graph"))
    );
}

#[test]
fn scratch_is_left_empty_once_a_kernel_is_written() {
    let mut scratch = PlannerScratch { bytes: vec![1, 2, 3] };
    let state = state_of(GraphDimension::D2, "n", vec![sample2("n", "gone")]);
    assert!(compile_graph(&state, &mut scratch).is_err());
    assert_eq!(scratch.bytes, vec![1, 2, 3]);
    let state = state_of(GraphDimension::D2, "m", vec![mix("m", CombineOp::Add, &[], &[])]);
    assert!(compile_graph(&state, &mut scratch).is_err());
    assert_eq!(scratch.bytes, vec![1, 2, 3]);
    let state = state_of(
        GraphDimension::D2,
        "b",
        vec![sample2("a", ""), sample2("b", "a")],
    );
    assert!(compile_graph(&state, &mut scratch).is_err());
    assert_eq!(scratch.bytes.len(), 0);
    let mut scratch = PlannerScratch { bytes: vec![1, 2, 3] };
    let state = state_of(GraphDimension::D2, "n", vec![sample2("n", "")]);
    assert!(compile_graph(&state, &mut scratch).is_ok());
    assert_eq!(scratch.bytes.len(), 0);
}

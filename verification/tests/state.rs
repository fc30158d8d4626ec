use fastnoise::model::{
    CombineNode, FastNoiseChange, FastNoiseGraphSpec, GraphDimension, NodeSpec, PositionSource,
    SampleNode, WarpNode,
};
use fastnoise::noise::{
    CellularDistanceFunction, CellularReturnType, CombineOp, DomainWarpType, F32Bits,
    FastNoiseLite, FractalType, NoiseType, RotationType3D,
};
use fastnoise::planner::FastNoisePlanner;
use fastnoise::state::FastNoiseState;

fn settings(seed: i32) -> FastNoiseLite {
    FastNoiseLite {
        seed,
        frequency: F32Bits(0.01f32.to_bits()),
        noise_type: NoiseType::OpenSimplex2,
        rotation_type_3d: RotationType3D::NoRotation,
        fractal_type: FractalType::NoFractal,
        octaves: 3,
        lacunarity: F32Bits(2.0f32.to_bits()),
        gain: F32Bits(0.5f32.to_bits()),
        weighted_strength: F32Bits(0),
        ping_pong_strength: F32Bits(2.0f32.to_bits()),
        cellular_distance_function: CellularDistanceFunction::EuclideanSq,
        cellular_return_type: CellularReturnType::Distance,
        cellular_jitter_modifier: F32Bits(1.0f32.to_bits()),
        domain_warp_type: DomainWarpType::OpenSimplex2,
        domain_warp_amp: F32Bits(1.0f32.to_bits()),
    }
}

fn sample(id: &str, seed: i32) -> NodeSpec {
    NodeSpec::Sample2D(SampleNode {
        id: id.to_string(),
        source: PositionSource::Base,
        noise: settings(seed),
    })
}

fn spec_of(nodes: Vec<NodeSpec>) -> FastNoiseGraphSpec {
    FastNoiseGraphSpec {
        dimension: GraphDimension::D2,
        final_field: "a".to_string(),
        nodes,
    }
}

fn names(state: &FastNoiseState) -> Vec<String> {
    (0..state.node_count())
        .map(|place| state.node_at(place).id().clone())
        .collect()
}

#[test]
fn state_follows_the_spec() {
    let state = FastNoiseState::from_spec(&spec_of(vec![sample("a", 1), sample("b", 2)])).unwrap();
    assert_eq!(state.dimension(), GraphDimension::D2);
    assert_eq!(state.final_field(), "a");
    assert_eq!(names(&state), vec!["a", "b"]);
}

#[test]
fn later_node_of_the_same_name_takes_the_place_of_the_earlier() {
    let spec = spec_of(vec![sample("a", 1), sample("b", 2), sample("a", 3)]);
    let state = FastNoiseState::from_spec(&spec).unwrap();
    assert_eq!(names(&state), vec!["a", "b"]);
    assert_eq!(*state.node_at(0), sample("a", 3));
}

#[test]
fn upsert_replaces_or_appends() {
    let mut state = FastNoiseState::from_spec(&spec_of(vec![sample("a", 1)])).unwrap();
    state.upsert_node(sample("b", 2)).unwrap();
    state.upsert_node(sample("a", 5)).unwrap();
    assert_eq!(names(&state), vec!["a", "b"]);
    assert_eq!(*state.node_at(0), sample("a", 5));
    assert_eq!(*state.node_at(1), sample("b", 2));
}

#[test]
fn remove_takes_a_node_out_and_ignores_unknown_names() {
    let mut state =
        FastNoiseState::from_spec(&spec_of(vec![sample("a", 1), sample("b", 2)])).unwrap();
    state.remove_node("nowhere").unwrap();
    assert_eq!(names(&state), vec!["a", "b"]);
    state.remove_node("a").unwrap();
    assert_eq!(names(&state), vec!["b"]);
}

#[test]
fn removing_a_new_node_undoes_its_insertion() {
    let before = FastNoiseState::from_spec(&spec_of(vec![sample("a", 1)])).unwrap();
    let mut state = before.clone();
    state.upsert_node(sample("b", 2)).unwrap();
    state.remove_node("b").unwrap();
    assert_eq!(names(&state), names(&before));
    assert_eq!(state.node_at(0), before.node_at(0));
}

#[test]
fn changes_are_applied_in_order() {
    let planner = FastNoisePlanner;
    let mut state = planner.init_state(&spec_of(vec![sample("a", 1)])).unwrap();
    let changes = vec![
        FastNoiseChange::UpsertNode(sample("b", 2)),
        FastNoiseChange::UpsertNode(sample("b", 3)),
        FastNoiseChange::RemoveNode { id: "a".to_string() },
        FastNoiseChange::SetFinalField { id: "b".to_string() },
    ];
    planner.apply(&mut state, &changes).unwrap();
    assert_eq!(names(&state), vec!["b"]);
    assert_eq!(*state.node_at(0), sample("b", 3));
    assert_eq!(state.final_field(), "b");
}

#[test]
fn updated_state_leaves_the_old_one_alone() {
    let planner = FastNoisePlanner;
    let state = planner.init_state(&spec_of(vec![sample("a", 1)])).unwrap();
    let changes = vec![
        FastNoiseChange::RemoveNode { id: "a".to_string() },
        FastNoiseChange::UpsertNode(sample("c", 9)),
    ];
    let next = planner.updated_state(&state, &changes).unwrap();
    assert_eq!(names(&state), vec!["a"]);
    assert_eq!(names(&next), vec!["c"]);
}

#[test]
fn changes_in_two_parts_do_what_they_do_at_once() {
    let planner = FastNoisePlanner;
    let start = planner.init_state(&spec_of(vec![sample("a", 1)])).unwrap();
    let first = vec![FastNoiseChange::UpsertNode(sample("b", 2))];
    let second = vec![FastNoiseChange::RemoveNode { id: "b".to_string() }];
    let both = vec![
        FastNoiseChange::UpsertNode(sample("b", 2)),
        FastNoiseChange::RemoveNode { id: "b".to_string() },
    ];
    let step = planner.updated_state(&start, &first).unwrap();
    let in_parts = planner.updated_state(&step, &second).unwrap();
    let at_once = planner.updated_state(&start, &both).unwrap();
    assert_eq!(names(&in_parts), names(&at_once));
}

#[test]
fn reset_forgets_the_old_graph() {
    let planner = FastNoisePlanner;
    let mut state = planner
        .init_state(&spec_of(vec![sample("a", 1), sample("b", 2)]))
        .unwrap();
    let other = FastNoiseGraphSpec {
        dimension: GraphDimension::D3,
        final_field: "z".to_string(),
        nodes: vec![NodeSpec::Warp3D(WarpNode {
            id: "z".to_string(),
            source: PositionSource::Base,
            noise: settings(4),
        })],
    };
    planner.reset_state(&mut state, &other).unwrap();
    assert_eq!(state.dimension(), GraphDimension::D3);
    assert_eq!(state.final_field(), "z");
    assert_eq!(names(&state), vec!["z"]);
}

#[test]
fn copies_of_nodes_are_equal() {
    let node = NodeSpec::Combine(CombineNode {
        id: "mix".to_string(),
        op: CombineOp::Clamp,
        inputs: vec!["a".to_string()],
        params: vec![F32Bits(1), F32Bits(2)],
    });
    assert_eq!(node.clone(), node);
    let warp = NodeSpec::Warp2D(WarpNode {
        id: "w".to_string(),
        source: PositionSource::Node("a".to_string()),
        noise: settings(7),
    });
    assert_eq!(warp.clone(), warp);
}

use fastnoise::error::FastNoiseError;
use fastnoise::kernel::GridInitKernel;
use fastnoise::model::{BufferSlot, ChunkQuery, FastNoisePlannerMeta, GraphDimension};
use fastnoise::noise::F32Bits;
use fastnoise::query::{encode_batch, QueryBuffers};
use fastnoise::walk::{grids_fit, GridStep, GridWalk, SampleStep, SampleWalk};

fn all_samples(len: usize, check_every: usize) -> Vec<SampleStep> {
    let mut walk = SampleWalk::new(len, check_every);
    let mut steps = Vec::new();
    loop {
        let step = walk.next_step(false).unwrap();
        if step == SampleStep::Finished {
            return steps;
        }
        steps.push(step);
    }
}

fn all_cells(walk: GridWalk<'_>) -> Vec<GridStep> {
    let mut walk = walk;
    let mut steps = Vec::new();
    loop {
        let step = walk.next_step(false).unwrap();
        if step == GridStep::Finished {
            return steps;
        }
        steps.push(step);
    }
}

fn places(steps: &[GridStep]) -> Vec<usize> {
    steps
        .iter()
        .filter_map(|step| match step {
            GridStep::Place { index, .. } => Some(*index),
            _ => None,
        })
        .collect()
}

#[test]
fn samples_are_computed_in_order() {
    assert_eq!(
        all_samples(3, 2),
        vec![
            SampleStep::Evaluate(0),
            SampleStep::Poll,
            SampleStep::Evaluate(1),
            SampleStep::Evaluate(2),
            SampleStep::Poll,
        ]
    );
    assert_eq!(all_samples(0, 4096), vec![]);
}

#[test]
fn cancellation_is_looked_for_after_every_so_many_samples() {
    let steps = all_samples(10_000, 4096);
    let mut polled = Vec::new();
    let mut last = 0;
    for step in steps {
        match step {
            SampleStep::Evaluate(index) => last = index,
            SampleStep::Poll => polled.push(last),
            SampleStep::Finished => unreachable!(),
        }
    }
    assert_eq!(polled, vec![0, 4096, 8192]);
}

#[test]
fn cancelled_walk_over_samples_stops() {
    let mut walk = SampleWalk::new(10, 4);
    assert_eq!(walk.next_step(true), Ok(SampleStep::Evaluate(0)));
    assert_eq!(walk.next_step(true), Ok(SampleStep::Poll));
    assert_eq!(walk.next_step(true), Err(FastNoiseError::Cancelled));
}

#[test]
fn cancellation_counts_only_as_an_answer() {
    let mut walk = SampleWalk::new(2, 4);
    assert_eq!(walk.next_step(false), Ok(SampleStep::Evaluate(0)));
    assert_eq!(walk.next_step(false), Ok(SampleStep::Poll));
    assert_eq!(walk.next_step(false), Ok(SampleStep::Evaluate(1)));
    assert_eq!(walk.next_step(true), Ok(SampleStep::Finished));
    assert_eq!(walk.next_step(true), Ok(SampleStep::Finished));
}

#[test]
fn grid_in_the_plane_is_walked_row_by_row() {
    let steps = all_cells(GridWalk::new(
        GraphDimension::D2,
        &[2, 2, 1],
        &[0, 4],
        1,
    ));
    let place = |x, y, index| GridStep::Place {
        query: 0,
        x,
        y,
        z: 0,
        index,
    };
    assert_eq!(
        steps,
        vec![
            place(0, 0, 0),
            place(1, 0, 1),
            GridStep::Poll,
            place(0, 1, 2),
            place(1, 1, 3),
        ]
    );
}

#[test]
fn grid_in_space_is_walked_layer_by_layer() {
    let steps = all_cells(GridWalk::new(
        GraphDimension::D3,
        &[1, 2, 2],
        &[0, 4],
        1,
    ));
    let place = |y, z, index| GridStep::Place {
        query: 0,
        x: 0,
        y,
        z,
        index,
    };
    assert_eq!(
        steps,
        vec![
            place(0, 0, 0),
            GridStep::Poll,
            place(1, 0, 1),
            place(0, 1, 2),
            GridStep::Poll,
            place(1, 1, 3),
        ]
    );
}

#[test]
fn plane_looks_every_thirty_two_rows_and_space_every_sixteen() {
    let polls = |steps: &[GridStep]| {
        steps
            .iter()
            .filter(|step| **step == GridStep::Poll)
            .count()
    };
    let plane = all_cells(GridWalk::new(GraphDimension::D2, &[1, 65, 1], &[0, 65], 1));
    assert_eq!(polls(&plane), 3);
    let space = all_cells(GridWalk::new(GraphDimension::D3, &[1, 33, 1], &[0, 33], 1));
    assert_eq!(polls(&space), 3);
}

#[test]
fn empty_rows_are_still_looked_after() {
    let steps = all_cells(GridWalk::new(GraphDimension::D2, &[0, 3, 1], &[0, 0], 1));
    assert_eq!(steps, vec![GridStep::Poll]);
    let steps = all_cells(GridWalk::new(GraphDimension::D3, &[4, 4, 0], &[0, 0], 1));
    assert_eq!(steps, vec![]);
}

#[test]
fn depth_does_not_count_in_the_plane() {
    let steps = all_cells(GridWalk::new(GraphDimension::D2, &[2, 1, 7], &[0, 2], 1));
    assert_eq!(places(&steps), vec![0, 1]);
}

#[test]
fn no_more_grids_are_walked_than_there_are_offsets() {
    let steps = all_cells(GridWalk::new(GraphDimension::D2, &[1, 1, 1], &[0], 0));
    assert_eq!(steps, vec![]);
    let steps = all_cells(GridWalk::new(GraphDimension::D2, &[0, 0, 1], &[0], 5));
    assert_eq!(steps, vec![]);
}

#[test]
fn cancelled_walk_over_grids_stops() {
    let mut walk = GridWalk::new(GraphDimension::D2, &[1, 2, 1], &[0, 2], 1);
    assert!(matches!(walk.next_step(true), Ok(GridStep::Place { .. })));
    assert_eq!(walk.next_step(true), Ok(GridStep::Poll));
    assert_eq!(walk.next_step(true), Err(FastNoiseError::Cancelled));
}

#[test]
fn every_sample_of_a_batch_is_placed_once() {
    let query = |width, height, depth| ChunkQuery::Grid3D {
        width,
        height,
        depth,
        origin: [F32Bits(0); 3],
        step: [F32Bits(0); 3],
    };
    let meta = FastNoisePlannerMeta {
        dimension: GraphDimension::D3,
        final_slot: BufferSlot(6),
    };
    let queries = [query(3, 2, 4), query(5, 0, 2), query(2, 20, 3)];
    let mut buffers = QueryBuffers::new();
    encode_batch(&meta, &queries, &mut buffers).unwrap();
    let kernel = GridInitKernel {
        dimension: GraphDimension::D3,
    };
    assert!(grids_fit(
        GraphDimension::D3,
        &buffers.meta,
        &buffers.offsets,
        buffers.query_count
    ));
    let run = kernel.run(&buffers.meta, &buffers.offsets, buffers.query_count);
    assert_eq!(
        run.outputs,
        vec![BufferSlot(3), BufferSlot(4), BufferSlot(5)]
    );
    let placed = places(&all_cells(run.walk));
    let wanted: Vec<usize> = (0..24 + 120).collect();
    assert_eq!(placed, wanted);
}

#[test]
fn plane_makes_room_for_two_coordinates() {
    let kernel = GridInitKernel {
        dimension: GraphDimension::D2,
    };
    let run = kernel.run(&[1, 1, 1], &[0, 1], 1);
    assert_eq!(run.outputs, vec![BufferSlot(3), BufferSlot(4)]);
}

#[test]
fn grids_that_do_not_fit_are_told() {
    let plane = GraphDimension::D2;
    let space = GraphDimension::D3;
    assert!(grids_fit(plane, &[2, 3, 1], &[0, 6], 1));
    assert!(!grids_fit(plane, &[2, 3, 1], &[0, 5], 1));
    assert!(!grids_fit(plane, &[2, 3, 1], &[1, 6], 1));
    assert!(grids_fit(plane, &[2, 3], &[0, 6], 1));
    assert!(!grids_fit(space, &[2, 3], &[0, 6], 1));
    assert!(!grids_fit(plane, &[2], &[0, 6], 1));
    assert!(!grids_fit(space, &[2, 3, 2], &[0, 6], 1));
    assert!(grids_fit(space, &[2, 3, 0], &[9, 6], 1));
    assert!(grids_fit(plane, &[], &[], 7));
    assert!(!grids_fit(space, &[u32::MAX, u32::MAX, u32::MAX], &[0, u32::MAX], 1));
}

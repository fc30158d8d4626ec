use fastnoise::error::{FastNoiseError, FastNoiseResult};
use fastnoise::model::{BufferSlot, ChunkQuery, FastNoisePlannerMeta, GraphDimension};
use fastnoise::noise::F32Bits;
use fastnoise::query::{
    checked_mul_u32, checked_offset_after_add, checked_u32_from_usize, encode_batch, encode_one,
    origin_and_step, sample_count_2d, sample_count_3d, total_samples_from_offsets, QueryBuffers,
};

fn bits(value: f32) -> F32Bits {
    F32Bits(value.to_bits())
}

fn meta_of(dimension: GraphDimension) -> FastNoisePlannerMeta {
    FastNoisePlannerMeta {
        dimension,
        final_slot: BufferSlot(6),
    }
}

fn plane(width: usize, height: usize) -> ChunkQuery {
    ChunkQuery::Grid2D {
        width,
        height,
        origin: [bits(1.5), bits(-2.0)],
        step: [bits(0.25), bits(0.5)],
    }
}

fn space(width: usize, height: usize, depth: usize) -> ChunkQuery {
    ChunkQuery::Grid3D {
        width,
        height,
        depth,
        origin: [bits(1.0), bits(2.0), bits(3.0)],
        step: [bits(4.0), bits(5.0), bits(6.0)],
    }
}

fn text(message: &str) -> FastNoiseError {
    FastNoiseError::InvalidSpec(message.to_string())
}

fn lay_out(
    meta: &FastNoisePlannerMeta,
    queries: &[ChunkQuery],
) -> FastNoiseResult<QueryBuffers> {
    let mut packet = QueryBuffers::new();
    encode_batch(meta, queries, &mut packet)?;
    Ok(packet)
}

fn lay_out_one(
    meta: &FastNoisePlannerMeta,
    query: &ChunkQuery,
) -> FastNoiseResult<QueryBuffers> {
    let mut packet = QueryBuffers::new();
    encode_one(meta, query, &mut packet)?;
    Ok(packet)
}

#[test]
fn sample_counts_multiply() {
    assert_eq!(sample_count_2d(3, 4), Ok(12));
    assert_eq!(sample_count_2d(0, 4), Ok(0));
    assert_eq!(sample_count_2d(1, u32::MAX as usize), Ok(u32::MAX));
    assert_eq!(sample_count_3d(3, 4, 5), Ok(60));
    assert_eq!(sample_count_3d(7, 0, 5), Ok(0));
}

#[test]
fn sizes_that_do_not_fit_are_refused() {
    let large = u32::MAX as usize + 1;
    assert_eq!(
        sample_count_2d(large, 1),
        Err(text("query width exceeds u32 metadata range: 4294967296"))
    );
    assert_eq!(
        sample_count_2d(1, large),
        Err(text("query height exceeds u32 metadata range: 4294967296"))
    );
    assert_eq!(
        sample_count_2d(65536, 65536),
        Err(text("query sample count exceeds u32 metadata range: 4294967296"))
    );
    assert_eq!(
        sample_count_3d(1, 1, large),
        Err(text("query depth exceeds u32 metadata range: 4294967296"))
    );
    assert_eq!(
        sample_count_3d(65536, 65536, 0),
        Err(text(
            "intermediate query sample count exceeds u32 metadata range: 4294967296"
        ))
    );
    assert_eq!(
        sample_count_3d(65536, 65535, 2),
        Err(text("query sample count exceeds u32"))
    );
}

#[test]
fn width_is_refused_before_height_and_depth() {
    let large = u32::MAX as usize + 7;
    assert_eq!(
        sample_count_3d(large, large, large),
        Err(text("query width exceeds u32 metadata range: 4294967302"))
    );
}

#[test]
fn words_and_products_are_checked() {
    assert_eq!(checked_u32_from_usize(5, "field"), Ok(5));
    assert_eq!(
        checked_u32_from_usize(10_000_000_000, "field"),
        Err(text("field exceeds u32 metadata range: 10000000000"))
    );
    assert_eq!(checked_mul_u32(65535, 65537, "area"), Ok(u32::MAX));
    assert_eq!(
        checked_mul_u32(u32::MAX, u32::MAX, "area"),
        Err(text("area exceeds u32 metadata range: 18446744065119617025"))
    );
}

#[test]
fn offsets_are_checked() {
    assert_eq!(checked_offset_after_add(10, 5), Ok(15));
    assert_eq!(
        checked_offset_after_add(u32::MAX as u64 - 1, 1),
        Ok(u32::MAX as u64)
    );
    assert_eq!(
        checked_offset_after_add(u32::MAX as u64, 1),
        Err(text("chunk sample offset exceeds u32 metadata range"))
    );
    assert_eq!(
        checked_offset_after_add(u64::MAX, 1),
        Err(text("chunk sample offset overflowed"))
    );
}

#[test]
fn totals_come_from_the_last_offset() {
    assert_eq!(total_samples_from_offsets(&[]), 0);
    assert_eq!(total_samples_from_offsets(&[0]), 0);
    assert_eq!(total_samples_from_offsets(&[0, 6, 11]), 11);
}

#[test]
fn batch_in_the_plane_is_laid_out() {
    let buffers = lay_out(
        &meta_of(GraphDimension::D2),
        &[plane(3, 2), plane(0, 9), plane(5, 1)],
    )
    .unwrap();
    assert_eq!(buffers.query_count, 3);
    assert_eq!(buffers.meta, vec![3, 2, 1, 0, 9, 1, 5, 1, 1]);
    assert_eq!(buffers.offsets, vec![0, 6, 6, 11]);
    let one = [
        bits(1.5),
        bits(-2.0),
        bits(0.0),
        bits(0.25),
        bits(0.5),
        bits(1.0),
    ];
    assert_eq!(buffers.floats.len(), 18);
    for query in 0..3 {
        assert_eq!(buffers.floats[query * 6..query * 6 + 6], one);
    }
}

#[test]
fn batch_in_space_is_laid_out() {
    let buffers = lay_out(&meta_of(GraphDimension::D3), &[space(2, 3, 4), space(1, 1, 1)]);
    let buffers = buffers.unwrap();
    assert_eq!(buffers.meta, vec![2, 3, 4, 1, 1, 1]);
    assert_eq!(buffers.offsets, vec![0, 24, 25]);
    assert_eq!(
        buffers.floats[0..6],
        [
            bits(1.0),
            bits(2.0),
            bits(3.0),
            bits(4.0),
            bits(5.0),
            bits(6.0)
        ]
    );
}

#[test]
fn empty_batch_has_one_offset() {
    let buffers = lay_out(&meta_of(GraphDimension::D2), &[]).unwrap();
    assert_eq!(
        buffers,
        QueryBuffers {
            query_count: 0,
            meta: vec![],
            floats: vec![],
            offsets: vec![0],
        }
    );
}

#[test]
fn single_query_is_laid_out_like_a_batch_of_one() {
    let meta = meta_of(GraphDimension::D2);
    assert_eq!(
        lay_out_one(&meta, &plane(4, 8)),
        lay_out(&meta, &[plane(4, 8)])
    );
    let meta = meta_of(GraphDimension::D3);
    assert_eq!(
        lay_out_one(&meta, &space(2, 3, 4)),
        lay_out(&meta, &[space(2, 3, 4)])
    );
    assert_eq!(
        lay_out_one(&meta, &space(65536, 65536, 1)),
        lay_out(&meta, &[space(65536, 65536, 1)])
    );
}

#[test]
fn first_query_that_is_wrong_is_reported() {
    let meta = meta_of(GraphDimension::D2);
    assert_eq!(
        lay_out(
            &meta,
            &[
                plane(2, 2),
                plane(65536, 65536),
                plane(usize::MAX, 1)
            ]
        ),
        Err(text("query sample count exceeds u32 metadata range: 4294967296"))
    );
    assert_eq!(
        lay_out(&meta, &[plane(65536, 65535), plane(65536, 1)]),
        Err(text("chunk sample offset exceeds u32 metadata range"))
    );
}

#[test]
fn samples_of_a_batch_lie_in_a_row() {
    let queries = [plane(3, 3), plane(1, 4), plane(2, 2)];
    let buffers = lay_out(&meta_of(GraphDimension::D2), &queries).unwrap();
    let counts: Vec<u32> = buffers
        .offsets
        .windows(2)
        .map(|pair| pair[1] - pair[0])
        .collect();
    assert_eq!(counts, vec![9, 4, 4]);
    assert_eq!(total_samples_from_offsets(&buffers.offsets), 17);
}

#[test]
fn axes_are_read_back() {
    let buffers =
        lay_out(&meta_of(GraphDimension::D3), &[space(1, 1, 1), space(2, 2, 2)]).unwrap();
    assert_eq!(origin_and_step(&buffers.floats, 1, 0), (bits(1.0), bits(4.0)));
    assert_eq!(origin_and_step(&buffers.floats, 1, 1), (bits(2.0), bits(5.0)));
    assert_eq!(origin_and_step(&buffers.floats, 0, 2), (bits(3.0), bits(6.0)));
}

#[test]
fn refused_batch_leaves_its_number_of_queries() {
    let meta = meta_of(GraphDimension::D2);
    let mut packet = QueryBuffers::new();
    let queries = [plane(2, 3), plane(1, 1), plane(65536, 65536), plane(1, 1)];
    assert!(encode_batch(&meta, &queries, &mut packet).is_err());
    assert_eq!(packet.query_count, 4);
    let mut packet = QueryBuffers::new();
    assert!(encode_one(&meta, &plane(65536, 65536), &mut packet).is_err());
    assert_eq!(packet.query_count, 1);
}

#[test]
fn refused_batch_leaves_the_queries_before_the_refused_one() {
    let meta = meta_of(GraphDimension::D2);
    let mut packet = QueryBuffers::new();
    let queries = [plane(2, 3), plane(1, 1), plane(65536, 65535), plane(65536, 1)];
    assert!(encode_batch(&meta, &queries, &mut packet).is_err());
    assert_eq!(packet.query_count, 4);
    let before = lay_out(&meta, &queries[..3]).unwrap();
    assert!(packet.meta.starts_with(&before.meta));
    assert!(packet.floats.starts_with(&before.floats));
    assert!(packet.offsets.starts_with(&before.offsets));
}

#[test]
fn buffers_are_used_again() {
    let meta = meta_of(GraphDimension::D2);
    let mut packet = lay_out(&meta, &[plane(9, 9), plane(8, 8)]).unwrap();
    encode_batch(&meta, &[plane(2, 2)], &mut packet).unwrap();
    assert_eq!(Ok(packet), lay_out(&meta, &[plane(2, 2)]));
    let mut packet = lay_out(&meta, &[plane(9, 9), plane(8, 8)]).unwrap();
    encode_one(&meta, &plane(2, 2), &mut packet).unwrap();
    assert_eq!(Ok(packet), lay_out(&meta, &[plane(2, 2)]));
}

#[test]
fn batch_is_refused_for_size_alone() {
    let meta = meta_of(GraphDimension::D3);
    for query in [
        space(u32::MAX as usize + 1, 0, 0),
        space(0, u32::MAX as usize + 1, 0),
        space(0, 0, u32::MAX as usize + 1),
        space(65536, 65536, 0),
        space(65536, 32768, 2),
    ] {
        assert!(matches!(
            lay_out(&meta, &[space(1, 1, 1), query]),
            Err(FastNoiseError::InvalidSpec(_))
        ));
    }
    assert!(lay_out(&meta, &[space(65535, 65537, 1)]).is_ok());
    assert!(lay_out(&meta, &[space(65535, 65537, 1), space(1, 1, 1)]).is_err());
}

#[test]
fn refused_batch_leaves_room_for_all_queries() {
    let meta = meta_of(GraphDimension::D2);
    let wide = plane(u32::MAX as usize + 1, 1);
    for bad in [wide, plane(65536, 65536)] {
        let mut packet = QueryBuffers::new();
        assert!(encode_batch(&meta, &[plane(2, 3), bad, plane(1, 1)], &mut packet).is_err());
        assert_eq!(packet.meta.len(), 9);
        assert_eq!(packet.floats.len(), 18);
        assert_eq!(packet.offsets, vec![0, 6, 0, 0]);
    }
}

#[test]
fn words_of_a_refused_query_are_written_where_its_sides_fit() {
    let meta = meta_of(GraphDimension::D2);
    let mut packet = QueryBuffers::new();
    let queries = [plane(2, 3), plane(65536, 65536), plane(1, 1)];
    assert!(encode_batch(&meta, &queries, &mut packet).is_err());
    assert_eq!(packet.meta, vec![2, 3, 1, 65536, 65536, 1, 0, 0, 0]);
    assert_eq!(packet.floats[6], bits(1.5));
    assert_eq!(packet.floats[12], bits(0.0));
    let mut packet = QueryBuffers::new();
    let queries = [plane(2, 3), plane(1, u32::MAX as usize + 1), plane(1, 1)];
    assert!(encode_batch(&meta, &queries, &mut packet).is_err());
    assert_eq!(packet.meta, vec![2, 3, 1, 0, 0, 0, 0, 0, 0]);
    assert_eq!(packet.floats[6], bits(0.0));
}

#[test]
fn places_that_are_not_written_keep_what_they_held() {
    let meta = meta_of(GraphDimension::D2);
    let mut packet = lay_out(&meta, &[plane(7, 7), plane(8, 8)]).unwrap();
    let queries = [plane(2, 3), plane(usize::MAX, 1), plane(1, 1)];
    assert!(encode_batch(&meta, &queries, &mut packet).is_err());
    assert_eq!(packet.meta, vec![2, 3, 1, 8, 8, 1, 0, 0, 0]);
    assert_eq!(packet.offsets, vec![0, 6, 113, 0]);
}

#[test]
fn words_of_a_single_query_are_written_in_any_case() {
    let meta = meta_of(GraphDimension::D3);
    let mut packet = QueryBuffers::new();
    let query = space(u32::MAX as usize + 6, 2, 3);
    assert!(encode_one(&meta, &query, &mut packet).is_err());
    assert_eq!(packet.query_count, 1);
    assert_eq!(packet.meta, vec![5, 2, 3]);
    assert_eq!(packet.floats.len(), 6);
    assert_eq!(packet.floats[5], bits(6.0));
    assert_eq!(packet.offsets, vec![0, 0]);
}

use fastnoise::error::FastNoiseError;
use fastnoise::model::{ChunkSummary, GraphDimension};
use fastnoise::model::{BufferSlot, ChunkQuery, FastNoisePlannerMeta};
use fastnoise::noise::F32Bits;
use fastnoise::planner::FastNoisePlanner;
use fastnoise::query::{encode_batch, QueryBuffers};
use fastnoise::summary::{
    decode_batch, decode_one, greater_of, lesser_of, sample_windows, single_window,
    summarize_samples, Window,
};

fn bits(value: f32) -> F32Bits {
    F32Bits(value.to_bits())
}

fn list(values: &[f32]) -> Vec<F32Bits> {
    values.iter().map(|value| bits(*value)).collect()
}

#[test]
fn summary_of_nothing_is_zero() {
    assert_eq!(
        summarize_samples(&[], bits(7.0)),
        ChunkSummary {
            samples: 0,
            min: bits(0.0),
            max: bits(0.0),
            mean: bits(0.0),
            checksum: 0,
            taps: [bits(0.0); 8],
        }
    );
}

#[test]
fn summary_of_one_sample() {
    assert_eq!(
        summarize_samples(&list(&[0.5]), bits(0.5)),
        ChunkSummary {
            samples: 1,
            min: bits(0.5),
            max: bits(0.5),
            mean: bits(0.5),
            checksum: 0xe2ea_5803_5f48_f714,
            taps: [bits(0.5); 8],
        }
    );
}

#[test]
fn summary_of_three_samples() {
    let summary = summarize_samples(&list(&[1.0, -2.0, 0.25]), bits(-0.25));
    assert_eq!(summary.samples, 3);
    assert_eq!(summary.min, bits(-2.0));
    assert_eq!(summary.max, bits(1.0));
    assert_eq!(summary.mean, bits(-0.25));
    assert_eq!(summary.checksum, 0x4c04_0299_ef3d_e68a);
    let places: [usize; 8] = [0, 0, 0, 0, 1, 1, 1, 2];
    for (tap, place) in places.iter().enumerate() {
        assert_eq!(summary.taps[tap], list(&[1.0, -2.0, 0.25])[*place]);
    }
}

#[test]
fn taps_are_spread_over_the_samples() {
    let values: Vec<f32> = (0..15).map(|value| value as f32).collect();
    let summary = summarize_samples(&list(&values), bits(7.0));
    assert_eq!(
        summary.taps.to_vec(),
        list(&[0.0, 2.0, 4.0, 6.0, 8.0, 10.0, 12.0, 14.0])
    );
    assert_eq!(summary.checksum, 0xf51a_214f_e635_3dee);
    assert_eq!(summary.min, bits(0.0));
    assert_eq!(summary.max, bits(14.0));
}

#[test]
fn smallest_and_largest_agree_with_floating_point() {
    let values = [
        0.0,
        1.0,
        -1.0,
        3.5,
        -3.5,
        f32::MIN_POSITIVE,
        -f32::MIN_POSITIVE,
        f32::MAX,
        f32::MIN,
        f32::INFINITY,
        f32::NEG_INFINITY,
        1.0e-40,
    ];
    for a in values {
        for b in values {
            assert_eq!(lesser_of(bits(a), bits(b)), bits(a.min(b)));
            assert_eq!(greater_of(bits(a), bits(b)), bits(a.max(b)));
        }
    }
}

#[test]
fn what_is_no_number_is_passed_over() {
    let nan = bits(f32::NAN);
    assert_eq!(lesser_of(nan, bits(2.0)), bits(2.0));
    assert_eq!(lesser_of(bits(2.0), nan), bits(2.0));
    assert_eq!(greater_of(nan, bits(-2.0)), bits(-2.0));
    assert_eq!(greater_of(bits(-2.0), nan), bits(-2.0));
    let summary = summarize_samples(&[nan, bits(1.0), nan, bits(-1.0)], nan);
    assert_eq!(summary.min, bits(-1.0));
    assert_eq!(summary.max, bits(1.0));
    let summary = summarize_samples(&[nan, nan], nan);
    assert_eq!(summary.min, nan);
    assert_eq!(summary.max, nan);
}

#[test]
fn zeros_of_both_signs_are_equal() {
    assert_eq!(lesser_of(bits(0.0), bits(-0.0)), bits(0.0));
    assert_eq!(lesser_of(bits(-0.0), bits(0.0)), bits(-0.0));
    assert_eq!(greater_of(bits(-0.0), bits(0.0)), bits(-0.0));
}

#[test]
fn windows_follow_each_other() {
    assert_eq!(sample_windows(&[]), vec![]);
    assert_eq!(sample_windows(&[0]), vec![]);
    assert_eq!(
        sample_windows(&[0, 4, 4, 9]),
        vec![
            Window { start: 0, end: 4 },
            Window { start: 4, end: 4 },
            Window { start: 4, end: 9 },
        ]
    );
}

#[test]
fn first_window_of_a_batch_begins_at_zero() {
    assert_eq!(
        sample_windows(&[3, 5]),
        vec![Window { start: 0, end: 5 }]
    );
}

#[test]
fn batch_is_summarized_query_by_query() {
    let values = list(&[1.0, 2.0, 3.0, 10.0, 20.0]);
    let means = list(&[2.0, 0.0, 15.0]);
    let summaries = decode_batch(&values, &[0, 3, 3, 5], &means);
    assert_eq!(summaries.len(), 3);
    assert_eq!(summaries[0], summarize_samples(&values[0..3], means[0]));
    assert_eq!(summaries[1], summarize_samples(&[], bits(0.0)));
    assert_eq!(summaries[2], summarize_samples(&values[3..5], means[2]));
    assert_eq!(
        FastNoisePlanner.decode_batch(&values, &[0, 3, 3, 5], &means),
        Ok(summaries)
    );
}

#[test]
fn single_query_is_summarized_like_the_first_of_a_batch() {
    let values = list(&[4.0, 5.0, 6.0]);
    let one = decode_one(&values, &[0, 3], bits(5.0)).unwrap();
    let batch = decode_batch(&values, &[0, 3], &[bits(5.0)]);
    assert_eq!(one, batch[0]);
    assert_eq!(
        FastNoisePlanner.decode_one(&values, &[0, 3], bits(5.0)),
        Ok(one)
    );
}

#[test]
fn single_query_may_begin_later() {
    let values = list(&[4.0, 5.0, 6.0]);
    assert_eq!(
        decode_one(&values, &[1, 3], bits(5.5)),
        Ok(summarize_samples(&values[1..3], bits(5.5)))
    );
    assert_eq!(
        single_window(&values, &[1, 3, 99]),
        Ok(Window { start: 1, end: 3 })
    );
}

#[test]
fn missing_offsets_are_refused() {
    let missing = FastNoiseError::Other("missing fastnoise offsets".to_string());
    assert_eq!(single_window(&[], &[0]), Err(missing));
    let missing = FastNoiseError::Other("missing fastnoise offsets".to_string());
    assert_eq!(decode_one(&[], &[], bits(0.0)), Err(missing));
}

#[test]
fn offsets_beyond_the_samples_are_refused() {
    for offsets in [[0, 4], [3, 2], [4, 4], [9, 2]] {
        let invalid = FastNoiseError::Other("invalid fastnoise offsets".to_string());
        assert_eq!(
            decode_one(&list(&[1.0, 2.0, 3.0]), &offsets, bits(0.0)),
            Err(invalid)
        );
    }
}

#[test]
fn summaries_cover_what_queries_ask_for() {
    let query = |width, height| ChunkQuery::Grid2D {
        width,
        height,
        origin: [bits(0.0); 2],
        step: [bits(1.0); 2],
    };
    let meta = FastNoisePlannerMeta {
        dimension: GraphDimension::D2,
        final_slot: BufferSlot(6),
    };
    let mut buffers = QueryBuffers::new();
    encode_batch(&meta, &[query(2, 3), query(0, 5), query(4, 1)], &mut buffers).unwrap();
    let values = vec![bits(1.0); 10];
    let summaries = decode_batch(&values, &buffers.offsets, &[bits(1.0); 3]);
    let samples: Vec<usize> = summaries.iter().map(|summary| summary.samples).collect();
    assert_eq!(samples, vec![6, 0, 4]);
    let values = vec![bits(1.0); 17];
    let longer = decode_batch(&values, &buffers.offsets, &[bits(1.0); 3]);
    assert_eq!(longer, summaries);
}

use zarr_tui::cache::{ChunkData, ChunkRange};
use zarr_tui::chunk_manager::{
    visible_chunks_from_indices, AveragedValue, ChunkKey, ChunkManager, LoadBatch, LoadCursor,
};

fn bits(v: f32) -> u32 {
    v.to_bits()
}

/// A 2x2 chunk holding a, b / c, d.
fn block(a: f32, b: f32, c: f32, d: f32) -> ChunkData {
    ChunkData::new(vec![2, 2], vec![bits(a), bits(b), bits(c), bits(d)]).unwrap()
}

fn batch(chunks: Vec<(usize, usize)>, max_chunks: usize) -> LoadBatch {
    LoadBatch {
        variable_name: "temp".to_string(),
        time_idx: 0,
        chunks,
        shape: vec![4, 4],
        lat_axis: 0,
        lon_axis: 1,
        ndim: 2,
        max_chunks,
    }
}

/// Runs a load pass, answering each fetch with `data_for(chunk_lat, chunk_lon)`.
fn run_pass(m: &mut ChunkManager, b: &LoadBatch, data_for: &dyn Fn(usize, usize) -> Option<ChunkData>) -> Vec<(usize, usize)> {
    let mut cursor = LoadCursor { position: 0, loaded: 0, pending: 0 };
    let mut fetched = Vec::new();
    loop {
        let (next, fetch) = m.next_chunk_load(b, cursor);
        match fetch {
            Some(f) => {
                fetched.push((f.key.chunk_lat, f.key.chunk_lon));
                let data = data_for(f.key.chunk_lat, f.key.chunk_lon);
                cursor = m.complete_chunk_load(f, data, next);
            }
            None => return fetched,
        }
    }
}

fn four_chunks(lat: usize, lon: usize) -> Option<ChunkData> {
    let base = (lat * 2 + lon) as f32 * 10.0;
    Some(block(base, base + 1.0, base + 2.0, base + 3.0))
}

#[test]
fn chunk_key_new_keeps_fields() {
    let k = ChunkKey::new("temp", 3, 4, 5);
    assert_eq!(k.variable_name, "temp");
    assert_eq!((k.time_idx, k.chunk_lat, k.chunk_lon), (3, 4, 5));
}

#[test]
fn chunk_range_to_local() {
    let r = ChunkRange { lat_start: 256, lat_end: 512, lon_start: 512, lon_end: 700 };
    assert_eq!(r.to_local(300, 600), (44, 88));
    assert_eq!(r.to_local(256, 512), (0, 0));
}

#[test]
fn indices_to_chunk_divides_by_chunk_size() {
    let m = ChunkManager::new(256, 100, 1000, 1000, 4);
    assert_eq!(m.indices_to_chunk(0, 0), (0, 0));
    assert_eq!(m.indices_to_chunk(255, 99), (0, 0));
    assert_eq!(m.indices_to_chunk(256, 100), (1, 1));
    assert_eq!(m.indices_to_chunk(999, 250), (3, 2));
}

#[test]
fn chunk_to_range_clamps_to_total() {
    let m = ChunkManager::new(256, 256, 600, 300, 4);
    let r = m.chunk_to_range(0, 0);
    assert_eq!((r.lat_start, r.lat_end, r.lon_start, r.lon_end), (0, 256, 0, 256));
    let r = m.chunk_to_range(2, 1);
    assert_eq!((r.lat_start, r.lat_end, r.lon_start, r.lon_end), (512, 600, 256, 300));
}

#[test]
fn element_lies_in_its_chunk() {
    let m = ChunkManager::new(7, 5, 50, 40, 4);
    for lat in 0..50 {
        for lon in 0..40 {
            let (cl, cn) = m.indices_to_chunk(lat, lon);
            let r = m.chunk_to_range(cl, cn);
            assert!(r.lat_start <= lat && lat < r.lat_end);
            assert!(r.lon_start <= lon && lon < r.lon_end);
            let (ll, ln) = r.to_local(lat, lon);
            assert!(ll < 7 && ln < 5);
        }
    }
}

#[test]
fn chunk_data_row_major() {
    let d = ChunkData::new(vec![2, 3], vec![1, 2, 3, 4, 5, 6]).unwrap();
    assert_eq!(d.get(&vec![0, 0]), Some(1));
    assert_eq!(d.get(&vec![0, 2]), Some(3));
    assert_eq!(d.get(&vec![1, 0]), Some(4));
    assert_eq!(d.get(&vec![1, 2]), Some(6));
    assert_eq!(d.get(&vec![2, 0]), None);
    assert_eq!(d.get(&vec![0, 3]), None);
    assert_eq!(d.get(&vec![0]), None);
    assert_eq!(d.get(&vec![0, 0, 0]), None);
}

#[test]
fn chunk_data_refuses_wrong_length() {
    assert!(ChunkData::new(vec![2, 3], vec![1, 2, 3, 4, 5]).is_none());
    assert!(ChunkData::new(vec![2, 3], vec![1, 2, 3, 4, 5, 6, 7]).is_none());
    assert!(ChunkData::new(vec![0, 3], vec![]).is_some());
    assert!(ChunkData::new(vec![], vec![9]).is_some());
}

#[test]
fn value_read_after_load() {
    let mut m = ChunkManager::new(2, 2, 4, 4, 8);
    let b = batch(vec![(0, 0), (0, 1), (1, 0), (1, 1)], usize::MAX);
    let fetched = run_pass(&mut m, &b, &four_chunks);
    assert_eq!(fetched, vec![(0, 0), (0, 1), (1, 0), (1, 1)]);
    assert_eq!(m.cache_len(), 4);
    assert_eq!(m.last_loaded_count, 4);
    assert_eq!(m.pending_chunks, 0);
    // element (3, 2) lies in chunk (1, 1) at local (1, 0): 30 + 2
    assert_eq!(m.get_value_if_cached("temp", 0, 3, 2, 0, 1, 2), Some(bits(32.0)));
    assert_eq!(m.get_value_if_cached("temp", 0, 0, 1, 0, 1, 2), Some(bits(1.0)));
    assert_eq!(m.get_value_if_cached("other", 0, 0, 1, 0, 1, 2), None);
    assert_eq!(m.get_value_if_cached("temp", 1, 0, 1, 0, 1, 2), None);
    // axes swapped: local index (0, 1) read as (1, 0)
    assert_eq!(m.get_value_if_cached("temp", 0, 0, 1, 1, 0, 2), Some(bits(2.0)));
}

#[test]
fn extra_axes_read_at_zero() {
    let mut m = ChunkManager::new(2, 2, 2, 2, 2);
    let b = LoadBatch {
        variable_name: "v".to_string(),
        time_idx: 5,
        chunks: vec![(0, 0)],
        shape: vec![3, 2, 2],
        lat_axis: 1,
        lon_axis: 2,
        ndim: 3,
        max_chunks: usize::MAX,
    };
    let mut ranges = Vec::new();
    let fetched = run_pass(&mut m, &b, &|_, _| None);
    assert_eq!(fetched, vec![(0, 0)]);
    let (_, f) = m.next_chunk_load(&b, LoadCursor { position: 0, loaded: 0, pending: 0 });
    if let Some(f) = f {
        ranges = f.ranges.clone();
    }
    // time index 5 clamped to the last of 3 slices
    assert_eq!(ranges, vec![2..3, 0..2, 0..2]);
    let data = ChunkData::new(vec![1, 2, 2], vec![1, 2, 3, 4]).unwrap();
    let (next, f) = m.next_chunk_load(&b, LoadCursor { position: 0, loaded: 0, pending: 0 });
    m.complete_chunk_load(f.unwrap(), Some(data), next);
    assert_eq!(m.get_value_if_cached("v", 5, 1, 0, 1, 2, 3), Some(3));
}

#[test]
fn lru_evicts_least_recently_used() {
    let mut m = ChunkManager::new(2, 2, 4, 4, 2);
    let b = batch(vec![(0, 0), (0, 1)], usize::MAX);
    run_pass(&mut m, &b, &four_chunks);
    assert_eq!(m.cache_len(), 2);
    // touch (0, 0) so that (0, 1) becomes the least recently used
    assert_eq!(m.get_value_if_cached("temp", 0, 0, 0, 0, 1, 2), Some(bits(0.0)));
    let b2 = batch(vec![(1, 0)], usize::MAX);
    run_pass(&mut m, &b2, &four_chunks);
    assert_eq!(m.cache_len(), 2);
    assert_eq!(m.get_value_if_cached("temp", 0, 0, 2, 0, 1, 2), None);
    assert_eq!(m.get_value_if_cached("temp", 0, 0, 0, 0, 1, 2), Some(bits(0.0)));
    assert_eq!(m.get_value_if_cached("temp", 0, 2, 0, 0, 1, 2), Some(bits(20.0)));
}

#[test]
fn cached_chunks_are_not_fetched_again() {
    let mut m = ChunkManager::new(2, 2, 4, 4, 8);
    run_pass(&mut m, &batch(vec![(0, 0)], usize::MAX), &four_chunks);
    let fetched = run_pass(&mut m, &batch(vec![(0, 0), (1, 1), (1, 1)], usize::MAX), &four_chunks);
    assert_eq!(fetched, vec![(1, 1)]);
    assert_eq!(m.last_loaded_count, 1);
    assert_eq!(m.pending_chunks, 0);
}

#[test]
fn load_limit_leaves_chunks_pending() {
    let mut m = ChunkManager::new(2, 2, 4, 4, 8);
    let fetched = run_pass(&mut m, &batch(vec![(0, 0), (0, 1), (1, 0), (1, 1)], 1), &four_chunks);
    assert_eq!(fetched, vec![(0, 0)]);
    assert_eq!(m.last_loaded_count, 1);
    assert_eq!(m.pending_chunks, 3);
    assert_eq!(m.cache_len(), 1);
}

#[test]
fn failed_reads_stay_pending() {
    let mut m = ChunkManager::new(2, 2, 4, 4, 8);
    let fetched = run_pass(&mut m, &batch(vec![(0, 0), (0, 1), (1, 0)], 1), &|lat, lon| {
        if lat == 0 && lon == 0 { None } else { four_chunks(lat, lon) }
    });
    // the failed read does not count towards the limit, and its chunk, needed and
    // not cached, is pending like the one left over by the limit
    assert_eq!(fetched, vec![(0, 0), (0, 1)]);
    assert_eq!(m.last_loaded_count, 1);
    assert_eq!(m.pending_chunks, 2);
    assert_eq!(m.cache_len(), 1);

    let mut single = ChunkManager::new(2, 2, 4, 4, 8);
    let fetched = run_pass(&mut single, &batch(vec![(0, 0)], usize::MAX), &|_, _| None);
    assert_eq!(fetched, vec![(0, 0)]);
    assert_eq!(single.last_loaded_count, 0);
    assert_eq!(single.pending_chunks, 1);
}

#[test]
fn empty_ranges_are_never_pending() {
    let mut m = ChunkManager::new(2, 2, 4, 4, 8);
    // chunk row 5 lies beyond the array's 4 rows: not needed, even past the limit
    let fetched = run_pass(&mut m, &batch(vec![(0, 0), (5, 0), (1, 1)], 1), &four_chunks);
    assert_eq!(fetched, vec![(0, 0)]);
    assert_eq!(m.last_loaded_count, 1);
    assert_eq!(m.pending_chunks, 1);
}

#[test]
fn empty_ranges_are_skipped() {
    let mut m = ChunkManager::new(2, 2, 4, 4, 8);
    // chunk row 5 starts beyond the array's 4 rows
    let fetched = run_pass(&mut m, &batch(vec![(5, 0), (0, 0)], usize::MAX), &four_chunks);
    assert_eq!(fetched, vec![(0, 0)]);
    assert_eq!(m.pending_chunks, 0);
    let (_, f) = {
        let mut m2 = ChunkManager::new(2, 2, 4, 4, 8);
        m2.next_chunk_load(&batch(vec![(1, 1)], usize::MAX), LoadCursor { position: 0, loaded: 0, pending: 0 })
    };
    let f = f.unwrap();
    assert_eq!(f.ranges, vec![2..4, 2..4]);
    assert_eq!((f.range.lat_start, f.range.lat_end, f.range.lon_start, f.range.lon_end), (2, 4, 2, 4));
}

#[test]
fn averaged_small_range_reads_centre() {
    let mut m = ChunkManager::new(2, 2, 4, 4, 8);
    run_pass(&mut m, &batch(vec![(0, 0), (0, 1), (1, 0), (1, 1)], usize::MAX), &four_chunks);
    match m.get_averaged_value_if_cached("temp", 0, (0, 2), (2, 4), 0, 1, 2) {
        // centre (1, 3): chunk (0, 1), local (1, 1)
        AveragedValue::Single(v) => assert_eq!(v, Some(bits(13.0))),
        AveragedValue::Mean(_) => panic!("expected the centre value"),
    }
}

#[test]
fn averaged_large_range_reads_every_cell() {
    let mut m = ChunkManager::new(2, 2, 4, 4, 8);
    run_pass(&mut m, &batch(vec![(0, 0), (0, 1), (1, 0), (1, 1)], usize::MAX), &four_chunks);
    match m.get_averaged_value_if_cached("temp", 0, (0, 4), (0, 4), 0, 1, 2) {
        AveragedValue::Mean(values) => {
            assert_eq!(values.len(), 16);
            let first_row: Vec<f32> = values[0..4].iter().map(|b| f32::from_bits(*b)).collect();
            assert_eq!(first_row, vec![0.0, 1.0, 10.0, 11.0]);
        }
        AveragedValue::Single(_) => panic!("expected samples"),
    }
    let mut m = ChunkManager::new(4, 4, 8, 8, 8);
    let b = LoadBatch {
        variable_name: "temp".to_string(),
        time_idx: 0,
        chunks: vec![(0, 0), (0, 1), (1, 0), (1, 1)],
        shape: vec![8, 8],
        lat_axis: 0,
        lon_axis: 1,
        ndim: 2,
        max_chunks: usize::MAX,
    };
    run_pass(&mut m, &b, &|_, _| ChunkData::new(vec![4, 4], (0..16).map(|i| bits(i as f32)).collect()));
    match m.get_averaged_value_if_cached("temp", 0, (0, 8), (0, 8), 0, 1, 2) {
        AveragedValue::Mean(values) => assert_eq!(values.len(), 64),
        AveragedValue::Single(_) => panic!("expected samples"),
    }
    match m.get_averaged_value_if_cached("temp", 0, (1, 8), (0, 3), 0, 1, 2) {
        AveragedValue::Mean(values) => assert_eq!(values.len(), 21),
        AveragedValue::Single(_) => panic!("expected samples"),
    }
}

#[test]
fn averaged_mean_covers_alternating_cells() {
    // an 8x1 column holding 0.0 and 1.0 alternately: the mean of all its cells is 0.5
    let mut m = ChunkManager::new(8, 1, 8, 1, 4);
    let b = LoadBatch {
        variable_name: "temp".to_string(),
        time_idx: 0,
        chunks: vec![(0, 0)],
        shape: vec![8, 1],
        lat_axis: 0,
        lon_axis: 1,
        ndim: 2,
        max_chunks: usize::MAX,
    };
    run_pass(&mut m, &b, &|_, _| ChunkData::new(vec![8, 1], (0..8).map(|i| bits((i % 2) as f32)).collect()));
    match m.get_averaged_value_if_cached("temp", 0, (0, 8), (0, 1), 0, 1, 2) {
        AveragedValue::Mean(values) => {
            let sum: f32 = values.iter().map(|b| f32::from_bits(*b)).sum();
            assert_eq!(values.len(), 8);
            assert_eq!(sum / values.len() as f32, 0.5);
        }
        AveragedValue::Single(_) => panic!("expected samples"),
    }
}

#[test]
fn averaged_skips_non_finite_and_falls_back_to_centre() {
    let mut m = ChunkManager::new(2, 2, 4, 4, 8);
    run_pass(&mut m, &batch(vec![(0, 0), (0, 1), (1, 0), (1, 1)], usize::MAX), &|lat, lon| {
        if (lat, lon) == (0, 0) {
            Some(block(f32::NAN, f32::INFINITY, 5.0, f32::NEG_INFINITY))
        } else {
            Some(block(f32::NAN, f32::NAN, f32::NAN, f32::NAN))
        }
    });
    match m.get_averaged_value_if_cached("temp", 0, (0, 3), (0, 3), 0, 1, 2) {
        AveragedValue::Mean(values) => assert_eq!(values, vec![bits(5.0)]),
        AveragedValue::Single(_) => panic!("expected the one finite sample"),
    }
    match m.get_averaged_value_if_cached("temp", 0, (2, 5), (2, 5), 0, 1, 2) {
        AveragedValue::Single(v) => assert!(f32::from_bits(v.unwrap()).is_nan()),
        AveragedValue::Mean(_) => panic!("expected the centre fallback"),
    }
    let mut empty = ChunkManager::new(2, 2, 4, 4, 8);
    match empty.get_averaged_value_if_cached("temp", 0, (0, 4), (0, 4), 0, 1, 2) {
        AveragedValue::Single(v) => assert_eq!(v, None),
        AveragedValue::Mean(_) => panic!("nothing is cached"),
    }
}

#[test]
fn visible_chunks_cover_index_span() {
    assert_eq!(
        visible_chunks_from_indices(Some(5), Some(0), Some(1), Some(3), 10, 10, 2, 2),
        vec![(0, 0), (0, 1), (1, 0), (1, 1), (2, 0), (2, 1)]
    );
    // missing indices stand for the ends of the axes
    assert_eq!(visible_chunks_from_indices(None, None, Some(0), Some(0), 5, 5, 2, 2), vec![(0, 0), (1, 0), (2, 0)]);
    assert_eq!(visible_chunks_from_indices(None, None, None, None, 0, 0, 3, 3), vec![(0, 0)]);
    assert_eq!(
        visible_chunks_from_indices(Some(0), Some(5), Some(3), Some(1), 10, 10, 2, 2),
        visible_chunks_from_indices(Some(5), Some(0), Some(1), Some(3), 10, 10, 2, 2)
    );
}

//! Lazy loading and caching of the chunks of a gridded variable.
use vstd::prelude::*;

use crate::cache::{
    cache_contains, cache_get, cache_len, cache_new, cache_put, cache_capacity, cache_entries,
    cell_value, key_position, is_first_match, key_view, put_entry, touched, CacheKey,
    CacheKeyView, CachedChunk, ChunkData, ChunkRange,
};

verus! {

/// Key for cached chunks.
#[derive(Debug, Clone, PartialEq, Eq, Hash)]
pub struct ChunkKey {
    pub variable_name: String,
    pub time_idx: usize,
    pub chunk_lat: usize,
    pub chunk_lon: usize,
}

impl View for ChunkKey {
    type V = CacheKeyView;

    open spec fn view(&self) -> CacheKeyView {
        (self.variable_name@, self.time_idx, self.chunk_lat, self.chunk_lon)
    }
}

impl ChunkKey {
    pub fn new(variable_name: &str, time_idx: usize, chunk_lat: usize, chunk_lon: usize) -> (key: Self)
        ensures
            key@ == (variable_name@, time_idx, chunk_lat, chunk_lon),
    {
        ChunkKey {
            variable_name: String::from_str(variable_name),
            time_idx,
            chunk_lat,
            chunk_lon,
        }
    }

    /// The key under which the chunk is stored in the cache.
    fn into_cache_key(self) -> (key: CacheKey)
        ensures
            key_view(key) == self@,
    {
        (self.variable_name, self.time_idx, self.chunk_lat, self.chunk_lon)
    }
}

/// The cache key of the chunk holding element (`lat_idx`, `lon_idx`).
pub open spec fn element_key(
    variable_name: Seq<char>,
    time_idx: usize,
    lat_idx: usize,
    lon_idx: usize,
    chunk_size_lat: usize,
    chunk_size_lon: usize,
) -> CacheKeyView {
    (variable_name, time_idx, (lat_idx / chunk_size_lat) as usize, (lon_idx / chunk_size_lon) as usize)
}

/// The range of array indices covered by chunk (`chunk_lat`, `chunk_lon`), clamped
/// to the array's extent.
pub open spec fn chunk_range(
    chunk_lat: usize,
    chunk_lon: usize,
    chunk_size_lat: usize,
    chunk_size_lon: usize,
    total_lat: usize,
    total_lon: usize,
) -> ChunkRange {
    ChunkRange {
        lat_start: (chunk_lat * chunk_size_lat) as usize,
        lat_end: if (chunk_lat + 1) * chunk_size_lat <= total_lat {
            ((chunk_lat + 1) * chunk_size_lat) as usize
        } else {
            total_lat
        },
        lon_start: (chunk_lon * chunk_size_lon) as usize,
        lon_end: if (chunk_lon + 1) * chunk_size_lon <= total_lon {
            ((chunk_lon + 1) * chunk_size_lon) as usize
        } else {
            total_lon
        },
    }
}

/// The multi-index of element (`local_lat`, `local_lon`) of a chunk with `ndim`
/// axes, all other axes at 0.
pub open spec fn cell_index(ndim: usize, lat_axis: usize, local_lat: usize, lon_axis: usize, local_lon: usize) -> Seq<usize> {
    Seq::new(
        ndim as nat,
        |i: int|
            if i == lon_axis {
                local_lon
            } else if i == lat_axis {
                local_lat
            } else {
                0usize
            },
    )
}

/// The value of element (`lat_idx`, `lon_idx`) in the entry stored under `key`,
/// if there is one.
pub open spec fn cached_value(
    entries: Seq<(CacheKeyView, CachedChunk)>,
    key: CacheKeyView,
    lat_idx: usize,
    lon_idx: usize,
    lat_axis: usize,
    lon_axis: usize,
    ndim: usize,
) -> Option<u32> {
    match key_position(entries, key) {
        Some(i) => {
            let range = entries[i].1.range;
            cell_value(
                entries[i].1.data,
                cell_index(
                    ndim,
                    lat_axis,
                    (lat_idx - range.lat_start) as usize,
                    lon_axis,
                    (lon_idx - range.lon_start) as usize,
                ),
            )
        },
        None => None,
    }
}

/// No two entries share a key.
pub open spec fn unique_keys(entries: Seq<(CacheKeyView, CachedChunk)>) -> bool {
    forall|i: int, j: int|
        0 <= i < entries.len() && 0 <= j < entries.len() && i != j ==> entries[i].0 != entries[j].0
}

/// The entry's range starts where its chunk starts.
pub open spec fn anchored(entry: (CacheKeyView, CachedChunk), chunk_size_lat: usize, chunk_size_lon: usize) -> bool {
    &&& entry.1.range.lat_start == entry.0.2 * chunk_size_lat
    &&& entry.1.range.lon_start == entry.0.3 * chunk_size_lon
}

/// With distinct keys, the entry holding `key` is the one `key_position` finds.
proof fn lemma_position_of_unique(entries: Seq<(CacheKeyView, CachedChunk)>, key: CacheKeyView, i: int)
    requires
        unique_keys(entries),
        0 <= i < entries.len(),
        entries[i].0 == key,
    ensures
        key_position(entries, key) == Some(i),
{
    assert(is_first_match(entries, key, i));
    let c = choose|c: int| is_first_match(entries, key, c);
    assert(is_first_match(entries, key, c));
}

/// With distinct keys, no entry holds a key that `key_position` does not find.
proof fn lemma_no_position(entries: Seq<(CacheKeyView, CachedChunk)>, key: CacheKeyView)
    requires
        unique_keys(entries),
        key_position(entries, key) is None,
    ensures
        forall|i: int| 0 <= i < entries.len() ==> entries[i].0 != key,
{
    assert forall|i: int| 0 <= i < entries.len() implies entries[i].0 != key by {
        if entries[i].0 == key {
            lemma_position_of_unique(entries, key, i);
        }
    }
}

/// Where each entry goes when the entry at `p` is moved to the front.
proof fn lemma_move_to_front(entries: Seq<(CacheKeyView, CachedChunk)>, p: int)
    requires
        0 <= p < entries.len(),
    ensures
        (seq![entries[p]] + entries.remove(p)).len() == entries.len(),
        (seq![entries[p]] + entries.remove(p))[0] == entries[p],
        forall|i: int| 1 <= i <= p ==> #[trigger] (seq![entries[p]] + entries.remove(p))[i] == entries[i - 1],
        forall|i: int| p < i < entries.len() ==> #[trigger] (seq![entries[p]] + entries.remove(p))[i] == entries[i],
{
}

/// A lookup keeps the keys distinct, keeps the entries, and finds what it found before.
proof fn lemma_touched(entries: Seq<(CacheKeyView, CachedChunk)>, key: CacheKeyView, size_lat: usize, size_lon: usize)
    requires
        unique_keys(entries),
    ensures
        unique_keys(touched(entries, key)),
        touched(entries, key).len() == entries.len(),
        (forall|j: int| 0 <= j < entries.len() ==> #[trigger] anchored(entries[j], size_lat, size_lon)) ==>
            forall|i: int| 0 <= i < entries.len() ==> #[trigger] anchored(touched(entries, key)[i], size_lat, size_lon),
        forall|k: CacheKeyView| #[trigger] key_position(touched(entries, key), k) is Some ==>
            key_position(entries, k) is Some && touched(entries, key)[key_position(touched(entries, key), k)->0]
                == entries[key_position(entries, k)->0],
        forall|k: CacheKeyView| #[trigger] key_position(touched(entries, key), k) is None ==> key_position(entries, k) is None,
        forall|k: CacheKeyView, lat_idx: usize, lon_idx: usize, lat_axis: usize, lon_axis: usize, ndim: usize|
            #[trigger] cached_value(touched(entries, key), k, lat_idx, lon_idx, lat_axis, lon_axis, ndim)
                == cached_value(entries, k, lat_idx, lon_idx, lat_axis, lon_axis, ndim),
{
    let t = touched(entries, key);
    match key_position(entries, key) {
        Some(p) => {
            assert(is_first_match(entries, key, p));
            lemma_move_to_front(entries, p);
            let src = |i: int| if i == 0 { p } else if i <= p { i - 1 } else { i };
            assert forall|i: int| 0 <= i < entries.len() implies t[i] == entries[src(i)] && 0 <= src(i) < entries.len() by {
                if i == 0 {
                } else if i <= p {
                } else {
                }
            }
            assert forall|i: int, j: int| 0 <= i < t.len() && 0 <= j < t.len() && i != j implies t[i].0 != t[j].0 by {
                assert(t[i] == entries[src(i)]);
                assert(t[j] == entries[src(j)]);
            }
            if forall|j: int| 0 <= j < entries.len() ==> #[trigger] anchored(entries[j], size_lat, size_lon) {
                assert forall|i: int| 0 <= i < entries.len() implies #[trigger] anchored(t[i], size_lat, size_lon) by {
                    assert(t[i] == entries[src(i)]);
                }
            }
            assert forall|k: CacheKeyView| #[trigger] key_position(t, k) is Some implies
                key_position(entries, k) is Some && t[key_position(t, k)->0] == entries[key_position(entries, k)->0] by {
                let i = key_position(t, k)->0;
                assert(is_first_match(t, k, i));
                assert(t[i] == entries[src(i)]);
                lemma_position_of_unique(entries, k, src(i));
            }
            assert forall|k: CacheKeyView| #[trigger] key_position(t, k) is None implies key_position(entries, k) is None by {
                if key_position(entries, k) is Some {
                    let j = key_position(entries, k)->0;
                    assert(is_first_match(entries, k, j));
                    let i = if j == p { 0 } else if j < p { j + 1 } else { j };
                    assert(t[i] == entries[src(i)]);
                    lemma_position_of_unique(t, k, i);
                }
            }
        },
        None => {
        },
    }
    assert forall|k: CacheKeyView, lat_idx: usize, lon_idx: usize, lat_axis: usize, lon_axis: usize, ndim: usize|
        #[trigger] cached_value(t, k, lat_idx, lon_idx, lat_axis, lon_axis, ndim)
            == cached_value(entries, k, lat_idx, lon_idx, lat_axis, lon_axis, ndim) by {
        if key_position(t, k) is Some {
            assert(key_position(entries, k) is Some);
        }
    }
}

/// `end - start`, or 0 when `end < start`.
pub open spec fn span(start: usize, end: usize) -> nat {
    if end >= start {
        (end - start) as nat
    } else {
        0
    }
}

/// The indices `start`, `start + 1`, ... up to but excluding `end`.
pub open spec fn cells_between(start: usize, end: usize) -> Seq<usize> {
    Seq::new(span(start, end), |i: int| (start + i) as usize)
}

/// All pairs of `lats` and `lons`, row by row.
pub open spec fn grid(lats: Seq<usize>, lons: Seq<usize>) -> Seq<(usize, usize)>
    decreases lats.len(),
{
    if lats.len() == 0 {
        Seq::empty()
    } else {
        grid(lats.drop_last(), lons) + lons.map_values(|lon: usize| (lats.last(), lon))
    }
}

/// The entries after looking up each key of `keys` in turn.
pub open spec fn touch_all(entries: Seq<(CacheKeyView, CachedChunk)>, keys: Seq<CacheKeyView>) -> Seq<(CacheKeyView, CachedChunk)>
    decreases keys.len(),
{
    if keys.len() == 0 {
        entries
    } else {
        touched(touch_all(entries, keys.drop_last()), keys.last())
    }
}

/// The `f32` with bit pattern `bits` is neither infinite nor NaN.
pub open spec fn is_finite_bits(bits: u32) -> bool {
    bits & 0x7f80_0000u32 != 0x7f80_0000u32
}

/// Keys of the chunks holding each of `points`.
pub open spec fn point_keys(variable_name: Seq<char>, time_idx: usize, points: Seq<(usize, usize)>, chunk_size_lat: usize, chunk_size_lon: usize) -> Seq<CacheKeyView> {
    points.map_values(|p: (usize, usize)| element_key(variable_name, time_idx, p.0, p.1, chunk_size_lat, chunk_size_lon))
}

/// The cached finite values at `points`, in order.
pub open spec fn finite_samples(
    entries: Seq<(CacheKeyView, CachedChunk)>,
    variable_name: Seq<char>,
    time_idx: usize,
    points: Seq<(usize, usize)>,
    chunk_size_lat: usize,
    chunk_size_lon: usize,
    lat_axis: usize,
    lon_axis: usize,
    ndim: usize,
) -> Seq<u32>
    decreases points.len(),
{
    if points.len() == 0 {
        Seq::empty()
    } else {
        let p = points.last();
        let prev = finite_samples(entries, variable_name, time_idx, points.drop_last(), chunk_size_lat, chunk_size_lon, lat_axis, lon_axis, ndim);
        match cached_value(entries, element_key(variable_name, time_idx, p.0, p.1, chunk_size_lat, chunk_size_lon), p.0, p.1, lat_axis, lon_axis, ndim) {
            Some(v) => if is_finite_bits(v) { prev.push(v) } else { prev },
            None => prev,
        }
    }
}

/// Outcome of sampling a range of cells for averaging.
pub enum AveragedValue {
    /// Finite sample values (at least one), whose mean is the averaged value.
    Mean(Vec<u32>),
    /// The value at the centre of the range (when the range is small, or no
    /// finite sample was cached), if cached.
    Single(Option<u32>),
}

/// The entries of a cache with distinct keys, after looking up each of `keys`.
proof fn lemma_touch_all(entries: Seq<(CacheKeyView, CachedChunk)>, keys: Seq<CacheKeyView>, size_lat: usize, size_lon: usize)
    requires
        unique_keys(entries),
        forall|j: int| 0 <= j < entries.len() ==> #[trigger] anchored(entries[j], size_lat, size_lon),
    ensures
        unique_keys(touch_all(entries, keys)),
        touch_all(entries, keys).len() == entries.len(),
        forall|i: int| 0 <= i < entries.len() ==> #[trigger] anchored(touch_all(entries, keys)[i], size_lat, size_lon),
        forall|k: CacheKeyView, lat_idx: usize, lon_idx: usize, lat_axis: usize, lon_axis: usize, ndim: usize|
            #[trigger] cached_value(touch_all(entries, keys), k, lat_idx, lon_idx, lat_axis, lon_axis, ndim)
                == cached_value(entries, k, lat_idx, lon_idx, lat_axis, lon_axis, ndim),
    decreases keys.len(),
{
    if keys.len() > 0 {
        lemma_touch_all(entries, keys.drop_last(), size_lat, size_lon);
        lemma_touched(touch_all(entries, keys.drop_last()), keys.last(), size_lat, size_lon);
    }
}

/// The indices from `start` up to but excluding `end`.
fn cells_between_vec(start: usize, end: usize) -> (r: Vec<usize>)
    ensures
        r@ == cells_between(start, end),
{
    let mut r: Vec<usize> = Vec::new();
    if end <= start {
        assert(r@ =~= cells_between(start, end));
        return r;
    }
    let mut p = start;
    while p < end
        invariant
            start <= p <= end,
            r@ == Seq::new((p - start) as nat, |i: int| (start + i) as usize),
        decreases end - p,
    {
        r.push(p);
        assert(r@ =~= Seq::new((p + 1 - start) as nat, |i: int| (start + i) as usize));
        p = p + 1;
    }
    assert(r@ =~= cells_between(start, end));
    r
}

/// All pairs of `lats` and `lons`, row by row.
fn grid_points(lats: &Vec<usize>, lons: &Vec<usize>) -> (r: Vec<(usize, usize)>)
    ensures
        r@ == grid(lats@, lons@),
{
    let mut r: Vec<(usize, usize)> = Vec::new();
    let mut i: usize = 0;
    while i < lats.len()
        invariant
            i <= lats@.len(),
            r@ == grid(lats@.take(i as int), lons@),
        decreases lats.len() - i,
    {
        let lat = lats[i];
        let ghost before = r@;
        let mut j: usize = 0;
        while j < lons.len()
            invariant
                i < lats@.len(),
                lat == lats@[i as int],
                j <= lons@.len(),
                r@ == before + lons@.take(j as int).map_values(|lon: usize| (lat, lon)),
            decreases lons.len() - j,
        {
            r.push((lat, lons[j]));
            assert(lons@.take(j + 1).map_values(|lon: usize| (lat, lon)) == lons@.take(j as int).map_values(|lon: usize| (lat, lon)).push((lat, lons@[j as int])));
            j = j + 1;
        }
        assert(lons@.take(lons@.len() as int) == lons@);
        assert(lats@.take(i + 1).drop_last() == lats@.take(i as int));
        assert(lats@.take(i + 1).last() == lat);
        i = i + 1;
    }
    assert(lats@.take(lats@.len() as int) == lats@);
    r
}

/// A request to load the chunks of one variable that a view needs.
pub struct LoadBatch {
    pub variable_name: String,
    pub time_idx: usize,
    /// (chunk row, chunk column) of each chunk wanted, in order.
    pub chunks: Vec<(usize, usize)>,
    /// Axis lengths of the variable's array.
    pub shape: Vec<u64>,
    pub lat_axis: usize,
    pub lon_axis: usize,
    pub ndim: usize,
    /// Largest number of chunks to load in one pass.
    pub max_chunks: usize,
}

/// Progress of a load pass over a batch.
#[derive(Debug, Clone, Copy, PartialEq, Eq)]
pub struct LoadCursor {
    /// Index of the next chunk of the batch to consider.
    pub position: usize,
    /// Chunks loaded so far in this pass.
    pub loaded: usize,
    /// Chunks needed but neither cached nor loaded, so far.
    pub pending: usize,
}

/// A chunk to fetch from storage: its key, the range it covers, and the array
/// subset to read (one range per axis).
pub struct ChunkFetch {
    pub key: ChunkKey,
    pub range: ChunkRange,
    pub ranges: Vec<std::ops::Range<u64>>,
}

/// `end` clamped to an axis of length `extent`.
pub open spec fn clamped_end(end: usize, extent: u64) -> u64 {
    if (end as u64) <= extent {
        end as u64
    } else {
        extent
    }
}

/// The range is not empty once clamped to the array's shape.
pub open spec fn range_loadable(range: ChunkRange, shape: Seq<u64>, lat_axis: usize, lon_axis: usize) -> bool {
    &&& (range.lat_start as u64) < clamped_end(range.lat_end, shape[lat_axis as int])
    &&& (range.lon_start as u64) < clamped_end(range.lon_end, shape[lon_axis as int])
}

/// The index read on an axis other than the spatial ones: the time index on axis 0,
/// 0 on the others, clamped to the axis.
pub open spec fn slice_index(dim: int, time_idx: usize, extent: u64) -> u64 {
    let wanted: u64 = if dim == 0 { time_idx as u64 } else { 0 };
    let last: u64 = if extent >= 1 { (extent - 1) as u64 } else { 0 };
    if wanted <= last {
        wanted
    } else {
        last
    }
}

/// The array subset to read for a chunk: its clamped range on the spatial axes and
/// a single index on the others.
pub open spec fn fetch_ranges(range: ChunkRange, shape: Seq<u64>, lat_axis: usize, lon_axis: usize, ndim: usize, time_idx: usize) -> Seq<std::ops::Range<u64>> {
    Seq::new(
        ndim as nat,
        |d: int|
            if d == lat_axis {
                std::ops::Range { start: range.lat_start as u64, end: clamped_end(range.lat_end, shape[lat_axis as int]) }
            } else if d == lon_axis {
                std::ops::Range { start: range.lon_start as u64, end: clamped_end(range.lon_end, shape[lon_axis as int]) }
            } else {
                std::ops::Range { start: slice_index(d, time_idx, shape[d]), end: (slice_index(d, time_idx, shape[d]) + 1) as u64 }
            },
    )
}

/// Key of the `j`-th chunk of a batch.
pub open spec fn batch_key(batch: LoadBatch, j: int) -> CacheKeyView {
    (batch.variable_name@, batch.time_idx, batch.chunks@[j].0, batch.chunks@[j].1)
}

/// Storing an anchored entry keeps the keys distinct, the entries anchored, and
/// the number of entries within the capacity.
proof fn lemma_put(
    entries: Seq<(CacheKeyView, CachedChunk)>,
    key: CacheKeyView,
    value: CachedChunk,
    capacity: nat,
    size_lat: usize,
    size_lon: usize,
)
    requires
        unique_keys(entries),
        capacity > 0,
    ensures
        unique_keys(put_entry(entries, key, value, capacity)),
        entries.len() <= capacity ==> put_entry(entries, key, value, capacity).len() <= capacity,
        (forall|j: int| 0 <= j < entries.len() ==> #[trigger] anchored(entries[j], size_lat, size_lon))
            && anchored((key, value), size_lat, size_lon) ==>
            forall|i: int| 0 <= i < put_entry(entries, key, value, capacity).len() ==> #[trigger] anchored(put_entry(entries, key, value, capacity)[i], size_lat, size_lon),
        put_entry(entries, key, value, capacity)[0] == (key, value),
{
    let r = put_entry(entries, key, value, capacity);
    match key_position(entries, key) {
        Some(p) => {
            assert(is_first_match(entries, key, p));
            let rest = entries.remove(p);
            assert forall|i: int| 0 <= i < rest.len() implies rest[i] == entries[if i < p { i } else { i + 1 }] by {}
            assert forall|i: int| 0 <= i < rest.len() implies rest[i].0 != key by {
                assert(rest[i] == entries[if i < p { i } else { i + 1 }]);
            }
            assert forall|i: int| 1 <= i < r.len() implies r[i] == rest[i - 1] by {}
            assert forall|i: int, j: int| 0 <= i < r.len() && 0 <= j < r.len() && i != j implies r[i].0 != r[j].0 by {
                if i > 0 && j > 0 {
                    assert(r[i] == entries[if i - 1 < p { i - 1 } else { i }]);
                    assert(r[j] == entries[if j - 1 < p { j - 1 } else { j }]);
                } else if i > 0 {
                    assert(r[i] == rest[i - 1]);
                } else if j > 0 {
                    assert(r[j] == rest[j - 1]);
                }
            }
            if (forall|j: int| 0 <= j < entries.len() ==> #[trigger] anchored(entries[j], size_lat, size_lon))
                && anchored((key, value), size_lat, size_lon) {
                assert forall|i: int| 0 <= i < r.len() implies #[trigger] anchored(r[i], size_lat, size_lon) by {
                    if i > 0 {
                        assert(r[i] == entries[if i - 1 < p { i - 1 } else { i }]);
                    }
                }
            }
        },
        None => {
            lemma_no_position(entries, key);
            let rest = if entries.len() == capacity { entries.drop_last() } else { entries };
            assert forall|i: int| 0 <= i < rest.len() implies rest[i] == entries[i] by {}
            assert forall|i: int| 1 <= i < r.len() implies r[i] == rest[i - 1] by {}
            assert forall|i: int, j: int| 0 <= i < r.len() && 0 <= j < r.len() && i != j implies r[i].0 != r[j].0 by {
                if i > 0 && j > 0 {
                    assert(r[i] == entries[i - 1]);
                    assert(r[j] == entries[j - 1]);
                } else if i > 0 {
                    assert(r[i] == entries[i - 1]);
                } else if j > 0 {
                    assert(r[j] == entries[j - 1]);
                }
            }
            if (forall|j: int| 0 <= j < entries.len() ==> #[trigger] anchored(entries[j], size_lat, size_lon))
                && anchored((key, value), size_lat, size_lon) {
                assert forall|i: int| 0 <= i < r.len() implies #[trigger] anchored(r[i], size_lat, size_lon) by {
                    if i > 0 {
                        assert(r[i] == entries[i - 1]);
                    }
                }
            }
        },
    }
}

/// `index`, or `default` when there is none.
pub open spec fn index_or(index: Option<usize>, default: usize) -> usize {
    match index {
        Some(i) => i,
        None => default,
    }
}

/// The chunk indices from the chunk of the smaller of `a` and `b` to the chunk of
/// the larger, inclusive.
pub open spec fn chunk_span(a: usize, b: usize, chunk_size: usize) -> Seq<usize> {
    let lo = (if a <= b { a } else { b }) / chunk_size;
    let hi = (if a <= b { b } else { a }) / chunk_size;
    Seq::new((hi - lo + 1) as nat, |i: int| (lo + i) as usize)
}

/// Law: the chunks spanned by two indices do not depend on their order, so
/// descending coordinates give the same chunks as ascending ones.
pub proof fn law_chunk_span_symmetric(a: usize, b: usize, chunk_size: usize)
    ensures
        chunk_span(a, b, chunk_size) == chunk_span(b, a, chunk_size),
{
}

/// The consecutive integers `lo..=hi`.
fn inclusive_span(lo: usize, hi: usize) -> (r: Vec<usize>)
    requires
        lo <= hi,
    ensures
        r@ == Seq::new((hi - lo + 1) as nat, |i: int| (lo + i) as usize),
{
    let mut r: Vec<usize> = Vec::new();
    let mut c = lo;
    loop
        invariant
            lo <= c <= hi,
            r@ == Seq::new((c - lo) as nat, |i: int| (lo + i) as usize),
        decreases hi - c,
    {
        r.push(c);
        if c == hi {
            assert(r@ == Seq::new((hi - lo + 1) as nat, |i: int| (lo + i) as usize));
            return r;
        }
        c = c + 1;
    }
}

/// The chunks a view covers, given the array indices nearest to its corners (an
/// absent index stands for the start, resp. the end, of its axis): every chunk
/// from the chunk of the smaller index to the chunk of the larger, on both axes,
/// row by row.
pub fn visible_chunks_from_indices(
    lat_idx_a: Option<usize>,
    lat_idx_b: Option<usize>,
    lon_idx_a: Option<usize>,
    lon_idx_b: Option<usize>,
    lat_len: usize,
    lon_len: usize,
    chunk_size_lat: usize,
    chunk_size_lon: usize,
) -> (r: Vec<(usize, usize)>)
    requires
        chunk_size_lat > 0,
        chunk_size_lon > 0,
    ensures
        r@ == grid(
            chunk_span(
                index_or(lat_idx_a, 0),
                index_or(lat_idx_b, if lat_len >= 1 { (lat_len - 1) as usize } else { 0 }),
                chunk_size_lat,
            ),
            chunk_span(
                index_or(lon_idx_a, 0),
                index_or(lon_idx_b, if lon_len >= 1 { (lon_len - 1) as usize } else { 0 }),
                chunk_size_lon,
            ),
        ),
{
    let lat_a = match lat_idx_a { Some(i) => i, None => 0 };
    let lat_b = match lat_idx_b { Some(i) => i, None => if lat_len >= 1 { lat_len - 1 } else { 0 } };
    let lon_a = match lon_idx_a { Some(i) => i, None => 0 };
    let lon_b = match lon_idx_b { Some(i) => i, None => if lon_len >= 1 { lon_len - 1 } else { 0 } };
    let lat_min = if lat_a <= lat_b { lat_a } else { lat_b };
    let lat_max = if lat_a <= lat_b { lat_b } else { lat_a };
    let lon_min = if lon_a <= lon_b { lon_a } else { lon_b };
    let lon_max = if lon_a <= lon_b { lon_b } else { lon_a };
    assert(lat_min / chunk_size_lat <= lat_max / chunk_size_lat) by (nonlinear_arith)
        requires lat_min <= lat_max, chunk_size_lat > 0;
    assert(lon_min / chunk_size_lon <= lon_max / chunk_size_lon) by (nonlinear_arith)
        requires lon_min <= lon_max, chunk_size_lon > 0;
    let lats = inclusive_span(lat_min / chunk_size_lat, lat_max / chunk_size_lat);
    let lons = inclusive_span(lon_min / chunk_size_lon, lon_max / chunk_size_lon);
    grid_points(&lats, &lons)
}

/// Manages lazy loading and caching of chunks.
pub struct ChunkManager {
    /// The chunk cache; see `entries` and `capacity` for what it holds.
    cache: lru::LruCache<CacheKey, CachedChunk>,
    pub chunk_size_lat: usize,
    pub chunk_size_lon: usize,
    pub total_lat: usize,
    pub total_lon: usize,
    /// Number of chunks loaded in the last load pass.
    pub last_loaded_count: usize,
    /// Number of chunks that were needed but not cached after the last load pass.
    pub pending_chunks: usize,
}

impl ChunkManager {
    /// Rows of array elements per chunk.
    pub closed spec fn chunk_size_lat(&self) -> usize {
        self.chunk_size_lat
    }

    /// Columns of array elements per chunk.
    pub closed spec fn chunk_size_lon(&self) -> usize {
        self.chunk_size_lon
    }

    /// Rows of the array.
    pub closed spec fn total_lat(&self) -> usize {
        self.total_lat
    }

    /// Columns of the array.
    pub closed spec fn total_lon(&self) -> usize {
        self.total_lon
    }

    /// Chunks loaded by the last load pass.
    pub closed spec fn last_loaded_count(&self) -> usize {
        self.last_loaded_count
    }

    /// Needed chunks still not cached after the last load pass.
    pub closed spec fn pending_chunks(&self) -> usize {
        self.pending_chunks
    }

    /// Cached chunks, from the most recently used to the least recently used.
    pub closed spec fn entries(&self) -> Seq<(CacheKeyView, CachedChunk)> {
        cache_entries(self.cache)
    }

    /// The number of chunks the cache holds at most.
    pub closed spec fn capacity(&self) -> nat {
        cache_capacity(self.cache)
    }

    /// Chunk sizes are positive, the cache holds at most its capacity of entries
    /// with distinct keys, and each entry covers the chunk its key names.
    pub open spec fn wf(&self) -> bool {
        &&& self.chunk_size_lat() > 0
        &&& self.chunk_size_lon() > 0
        &&& self.capacity() > 0
        &&& self.entries().len() <= self.capacity()
        &&& unique_keys(self.entries())
        &&& forall|i: int|
            0 <= i < self.entries().len() ==> #[trigger] anchored(
                self.entries()[i],
                self.chunk_size_lat(),
                self.chunk_size_lon(),
            )
    }

    pub fn new(
        chunk_size_lat: usize,
        chunk_size_lon: usize,
        total_lat: usize,
        total_lon: usize,
        capacity: usize,
    ) -> (m: Self)
        requires
            capacity > 0,
        ensures
            m.entries() == Seq::<(CacheKeyView, CachedChunk)>::empty(),
            m.capacity() == capacity,
            m.chunk_size_lat() == chunk_size_lat,
            m.chunk_size_lon() == chunk_size_lon,
            m.total_lat() == total_lat,
            m.total_lon() == total_lon,
            m.last_loaded_count() == 0,
            m.pending_chunks() == 0,
            chunk_size_lat > 0 && chunk_size_lon > 0 ==> m.wf(),
    {
        ChunkManager {
            cache: cache_new(capacity),
            chunk_size_lat,
            chunk_size_lon,
            total_lat,
            total_lon,
            last_loaded_count: 0,
            pending_chunks: 0,
        }
    }

    /// Converts array indices to chunk indices.
    pub fn indices_to_chunk(&self, lat_idx: usize, lon_idx: usize) -> (r: (usize, usize))
        requires
            self.chunk_size_lat() > 0,
            self.chunk_size_lon() > 0,
        ensures
            r == ((lat_idx / self.chunk_size_lat()) as usize, (lon_idx / self.chunk_size_lon()) as usize),
    {
        (lat_idx / self.chunk_size_lat, lon_idx / self.chunk_size_lon)
    }

    /// Converts chunk indices to the array index range they cover, clamped to the
    /// array's extent.
    pub fn chunk_to_range(&self, chunk_lat: usize, chunk_lon: usize) -> (r: ChunkRange)
        requires
            chunk_lat < usize::MAX,
            chunk_lon < usize::MAX,
            (chunk_lat + 1) * self.chunk_size_lat() <= usize::MAX,
            (chunk_lon + 1) * self.chunk_size_lon() <= usize::MAX,
        ensures
            r == chunk_range(chunk_lat, chunk_lon, self.chunk_size_lat(), self.chunk_size_lon(), self.total_lat(), self.total_lon()),
    {
        assert(chunk_lat * self.chunk_size_lat <= (chunk_lat + 1) * self.chunk_size_lat) by (nonlinear_arith);
        assert(chunk_lon * self.chunk_size_lon <= (chunk_lon + 1) * self.chunk_size_lon) by (nonlinear_arith);
        let lat_start = chunk_lat * self.chunk_size_lat;
        let lat_next = (chunk_lat + 1) * self.chunk_size_lat;
        let lon_start = chunk_lon * self.chunk_size_lon;
        let lon_next = (chunk_lon + 1) * self.chunk_size_lon;
        ChunkRange {
            lat_start,
            lat_end: if lat_next <= self.total_lat { lat_next } else { self.total_lat },
            lon_start,
            lon_end: if lon_next <= self.total_lon { lon_next } else { self.total_lon },
        }
    }

    /// The value (an `f32` bit pattern) at array indices (`lat_idx`, `lon_idx`) if
    /// the chunk holding it is cached, `None` otherwise. A found chunk becomes the
    /// most recently used.
    pub fn get_value_if_cached(
        &mut self,
        variable_name: &str,
        time_idx: usize,
        lat_idx: usize,
        lon_idx: usize,
        lat_axis: usize,
        lon_axis: usize,
        ndim: usize,
    ) -> (r: Option<u32>)
        requires
            old(self).wf(),
            lat_axis < ndim,
            lon_axis < ndim,
        ensures
            final(self).wf(),
            r == cached_value(
                old(self).entries(),
                element_key(variable_name@, time_idx, lat_idx, lon_idx, old(self).chunk_size_lat(), old(self).chunk_size_lon()),
                lat_idx,
                lon_idx,
                lat_axis,
                lon_axis,
                ndim,
            ),
            final(self).entries() == touched(
                old(self).entries(),
                element_key(variable_name@, time_idx, lat_idx, lon_idx, old(self).chunk_size_lat(), old(self).chunk_size_lon()),
            ),
            final(self).capacity() == old(self).capacity(),
            final(self).chunk_size_lat() == old(self).chunk_size_lat(),
            final(self).chunk_size_lon() == old(self).chunk_size_lon(),
            final(self).total_lat() == old(self).total_lat(),
            final(self).total_lon() == old(self).total_lon(),
            final(self).last_loaded_count() == old(self).last_loaded_count(),
            final(self).pending_chunks() == old(self).pending_chunks(),
    {
        let (chunk_lat, chunk_lon) = self.indices_to_chunk(lat_idx, lon_idx);
        let key = ChunkKey::new(variable_name, time_idx, chunk_lat, chunk_lon).into_cache_key();
        let ghost kv = key_view(key);
        let ghost entries = self.entries();
        proof {
            lemma_touched(entries, kv, self.chunk_size_lat, self.chunk_size_lon);
        }
        let size_lat = self.chunk_size_lat;
        let size_lon = self.chunk_size_lon;
        match cache_get(&mut self.cache, &key) {
            Some(cached) => {
                proof {
                    let p = key_position(entries, kv)->0;
                    assert(is_first_match(entries, kv, p));
                    assert(anchored(entries[p], size_lat, size_lon));
                    assert((lat_idx / size_lat) * size_lat <= lat_idx) by (nonlinear_arith)
                        requires size_lat > 0;
                    assert((lon_idx / size_lon) * size_lon <= lon_idx) by (nonlinear_arith)
                        requires size_lon > 0;
                }
                let (local_lat, local_lon) = cached.range.to_local(lat_idx, lon_idx);
                let mut index: Vec<usize> = Vec::new();
                let mut i: usize = 0;
                while i < ndim
                    invariant
                        i <= ndim,
                        index@.len() == i,
                        forall|j: int| 0 <= j < i ==> index@[j] == 0usize,
                    decreases ndim - i,
                {
                    index.push(0);
                    i = i + 1;
                }
                index.set(lat_axis, local_lat);
                index.set(lon_axis, local_lon);
                assert(index@ == cell_index(ndim, lat_axis, local_lat, lon_axis, local_lon));
                cached.data.get(&index)
            },
            None => None,
        }
    }

    /// Reads a range of cells for a zoomed-out view. Small ranges (both spans at
    /// most 2) read the centre cell. Larger ranges read every cell of the range,
    /// row by row, and yield all its finite cached values, whose mean is the
    /// averaged value; when there is none, the centre cell is read instead. Every
    /// cell read is a lookup that marks its chunk as recently used.
    pub fn get_averaged_value_if_cached(
        &mut self,
        variable_name: &str,
        time_idx: usize,
        lat_range: (usize, usize),
        lon_range: (usize, usize),
        lat_axis: usize,
        lon_axis: usize,
        ndim: usize,
    ) -> (r: AveragedValue)
        requires
            old(self).wf(),
            lat_axis < ndim,
            lon_axis < ndim,
            lat_range.0 + lat_range.1 <= usize::MAX,
            lon_range.0 + lon_range.1 <= usize::MAX,
        ensures
            final(self).wf(),
            final(self).capacity() == old(self).capacity(),
            final(self).chunk_size_lat() == old(self).chunk_size_lat(),
            final(self).chunk_size_lon() == old(self).chunk_size_lon(),
            final(self).total_lat() == old(self).total_lat(),
            final(self).total_lon() == old(self).total_lon(),
            final(self).last_loaded_count() == old(self).last_loaded_count(),
            final(self).pending_chunks() == old(self).pending_chunks(),
            ({
                let size_lat = old(self).chunk_size_lat();
                let size_lon = old(self).chunk_size_lon();
                let center_lat = ((lat_range.0 + lat_range.1) / 2) as usize;
                let center_lon = ((lon_range.0 + lon_range.1) / 2) as usize;
                let center_key = element_key(variable_name@, time_idx, center_lat, center_lon, size_lat, size_lon);
                let center_value = cached_value(old(self).entries(), center_key, center_lat, center_lon, lat_axis, lon_axis, ndim);
                let points = grid(cells_between(lat_range.0, lat_range.1), cells_between(lon_range.0, lon_range.1));
                let samples = finite_samples(old(self).entries(), variable_name@, time_idx, points, size_lat, size_lon, lat_axis, lon_axis, ndim);
                let sampled = touch_all(old(self).entries(), point_keys(variable_name@, time_idx, points, size_lat, size_lon));
                if span(lat_range.0, lat_range.1) <= 2 && span(lon_range.0, lon_range.1) <= 2 {
                    &&& r == AveragedValue::Single(center_value)
                    &&& final(self).entries() == touched(old(self).entries(), center_key)
                } else if samples.len() > 0 {
                    &&& r matches AveragedValue::Mean(values) && values@ == samples
                    &&& final(self).entries() == sampled
                } else {
                    &&& r == AveragedValue::Single(center_value)
                    &&& final(self).entries() == touched(sampled, center_key)
                }
            }),
    {
        let (lat_start, lat_end) = lat_range;
        let (lon_start, lon_end) = lon_range;
        let lat_span = if lat_end >= lat_start { lat_end - lat_start } else { 0 };
        let lon_span = if lon_end >= lon_start { lon_end - lon_start } else { 0 };
        let ghost entries0 = self.entries();
        let ghost size_lat = self.chunk_size_lat;
        let ghost size_lon = self.chunk_size_lon;
        let center_lat = (lat_start + lat_end) / 2;
        let center_lon = (lon_start + lon_end) / 2;
        if lat_span <= 2 && lon_span <= 2 {
            return AveragedValue::Single(
                self.get_value_if_cached(variable_name, time_idx, center_lat, center_lon, lat_axis, lon_axis, ndim),
            );
        }
        let lats = cells_between_vec(lat_start, lat_end);
        let lons = cells_between_vec(lon_start, lon_end);
        let points = grid_points(&lats, &lons);
        let mut samples: Vec<u32> = Vec::new();
        let mut k: usize = 0;
        while k < points.len()
            invariant
                k <= points@.len(),
                lat_axis < ndim,
                lon_axis < ndim,
                unique_keys(entries0),
                forall|j: int| 0 <= j < entries0.len() ==> #[trigger] anchored(entries0[j], size_lat, size_lon),
                self.wf(),
                self.chunk_size_lat == size_lat,
                self.chunk_size_lon == size_lon,
                self.capacity() == old(self).capacity(),
                self.total_lat == old(self).total_lat,
                self.total_lon == old(self).total_lon,
                self.last_loaded_count == old(self).last_loaded_count,
                self.pending_chunks == old(self).pending_chunks,
                self.entries() == touch_all(entries0, point_keys(variable_name@, time_idx, points@.take(k as int), size_lat, size_lon)),
                samples@ == finite_samples(entries0, variable_name@, time_idx, points@.take(k as int), size_lat, size_lon, lat_axis, lon_axis, ndim),
            decreases points.len() - k,
        {
            let (lat_idx, lon_idx) = points[k];
            let ghost keys = point_keys(variable_name@, time_idx, points@.take(k as int), size_lat, size_lon);
            proof {
                lemma_touch_all(entries0, keys, size_lat, size_lon);
                assert(points@.take(k + 1).drop_last() == points@.take(k as int));
                assert(point_keys(variable_name@, time_idx, points@.take(k + 1), size_lat, size_lon).drop_last() == keys);
            }
            let value = self.get_value_if_cached(variable_name, time_idx, lat_idx, lon_idx, lat_axis, lon_axis, ndim);
            match value {
                Some(v) => {
                    if v & 0x7f80_0000u32 != 0x7f80_0000u32 {
                        samples.push(v);
                    }
                },
                None => {},
            }
            k = k + 1;
        }
        assert(points@.take(points@.len() as int) == points@);
        if samples.len() > 0 {
            AveragedValue::Mean(samples)
        } else {
            proof {
                lemma_touch_all(entries0, point_keys(variable_name@, time_idx, points@, size_lat, size_lon), size_lat, size_lon);
            }
            AveragedValue::Single(
                self.get_value_if_cached(variable_name, time_idx, center_lat, center_lon, lat_axis, lon_axis, ndim),
            )
        }
    }

    /// The batch fits the array's shape and its chunk indices do not overflow.
    pub open spec fn batch_ok(&self, batch: LoadBatch) -> bool {
        &&& batch.lat_axis < batch.shape@.len()
        &&& batch.lon_axis < batch.shape@.len()
        &&& batch.ndim <= batch.shape@.len()
        &&& forall|j: int| 0 <= j < batch.chunks@.len() ==> {
            &&& #[trigger] batch.chunks@[j].0 < usize::MAX
            &&& batch.chunks@[j].1 < usize::MAX
            &&& (batch.chunks@[j].0 + 1) * self.chunk_size_lat() <= usize::MAX
            &&& (batch.chunks@[j].1 + 1) * self.chunk_size_lon() <= usize::MAX
        }
    }

    /// Range covered by the `j`-th chunk of a batch.
    pub open spec fn batch_range(&self, batch: LoadBatch, j: int) -> ChunkRange {
        chunk_range(batch.chunks@[j].0, batch.chunks@[j].1, self.chunk_size_lat(), self.chunk_size_lon(), self.total_lat(), self.total_lon())
    }

    /// The `j`-th chunk of a batch is fetched when it is not cached, fewer than
    /// `max_chunks` chunks were loaded, and its clamped range is not empty.
    pub open spec fn fetches(&self, batch: LoadBatch, loaded: usize, j: int) -> bool {
        &&& key_position(self.entries(), batch_key(batch, j)) is None
        &&& loaded < batch.max_chunks
        &&& range_loadable(self.batch_range(batch, j), batch.shape@, batch.lat_axis, batch.lon_axis)
    }

    /// The `j`-th chunk of a batch stays pending without being fetched: it is needed
    /// (its clamped range is not empty), not cached, and the pass has loaded its
    /// limit.
    pub open spec fn counts_pending(&self, batch: LoadBatch, loaded: usize, j: int) -> bool {
        &&& key_position(self.entries(), batch_key(batch, j)) is None
        &&& loaded >= batch.max_chunks
        &&& range_loadable(self.batch_range(batch, j), batch.shape@, batch.lat_axis, batch.lon_axis)
    }

    /// The first chunk at or after `p` that is fetched, or the batch length.
    pub open spec fn next_fetch(&self, batch: LoadBatch, loaded: usize, p: int) -> int
        decreases batch.chunks@.len() - p,
    {
        if p >= batch.chunks@.len() {
            batch.chunks@.len() as int
        } else if self.fetches(batch, loaded, p) {
            p
        } else {
            self.next_fetch(batch, loaded, p + 1)
        }
    }

    /// Number of chunks in [`p`, `q`) that stay pending.
    pub open spec fn pending_between(&self, batch: LoadBatch, loaded: usize, p: int, q: int) -> nat
        decreases q - p,
    {
        if q <= p {
            0
        } else {
            self.pending_between(batch, loaded, p, q - 1) + if self.counts_pending(batch, loaded, q - 1) {
                1nat
            } else {
                0nat
            }
        }
    }

    /// One step of a load pass (the decisions; the caller reads the chunk). From
    /// `cursor.position` on, skips the chunks of the batch that are cached or whose
    /// range is empty once clamped to the array's shape (those are not needed),
    /// counts as pending the other ones met once `max_chunks` chunks were loaded,
    /// and returns the first chunk to fetch. When none is left, the pass ends:
    /// `last_loaded_count` and `pending_chunks` record its counts, pending being the
    /// needed chunks that are still not cached (see `complete_chunk_load`).
    pub fn next_chunk_load(&mut self, batch: &LoadBatch, cursor: LoadCursor) -> (r: (LoadCursor, Option<ChunkFetch>))
        requires
            old(self).wf(),
            old(self).batch_ok(*batch),
            cursor.loaded + cursor.pending <= cursor.position <= batch.chunks@.len(),
        ensures
            final(self).wf(),
            final(self).entries() == old(self).entries(),
            final(self).capacity() == old(self).capacity(),
            final(self).chunk_size_lat() == old(self).chunk_size_lat(),
            final(self).chunk_size_lon() == old(self).chunk_size_lon(),
            final(self).total_lat() == old(self).total_lat(),
            final(self).total_lon() == old(self).total_lon(),
            ({
                let q = old(self).next_fetch(*batch, cursor.loaded, cursor.position as int);
                let pending = cursor.pending + old(self).pending_between(*batch, cursor.loaded, cursor.position as int, q);
                &&& r.0.loaded == cursor.loaded
                &&& r.0.pending == pending
                &&& if q < batch.chunks@.len() {
                    &&& r.0.position == q + 1
                    &&& r.0.loaded + r.0.pending < r.0.position
                    &&& cursor.loaded < batch.max_chunks
                    &&& r.1 matches Some(fetch) && {
                        &&& fetch.key@ == batch_key(*batch, q)
                        &&& fetch.range == old(self).batch_range(*batch, q)
                        &&& fetch.ranges@ == fetch_ranges(fetch.range, batch.shape@, batch.lat_axis, batch.lon_axis, batch.ndim, batch.time_idx)
                    }
                    &&& final(self).last_loaded_count() == old(self).last_loaded_count()
                    &&& final(self).pending_chunks() == old(self).pending_chunks()
                } else {
                    &&& r.0.position == batch.chunks@.len()
                    &&& r.0.loaded + r.0.pending <= r.0.position
                    &&& r.1 is None
                    &&& final(self).last_loaded_count() == cursor.loaded
                    &&& final(self).pending_chunks() == pending
                }
            }),
    {
        let ghost p0 = cursor.position as int;
        let loaded = cursor.loaded;
        let mut position = cursor.position;
        let mut pending = cursor.pending;
        while position < batch.chunks.len()
            invariant
                self.wf(),
                self.batch_ok(*batch),
                *self == *old(self),
                loaded == cursor.loaded,
                p0 == cursor.position,
                p0 <= position <= batch.chunks@.len(),
                loaded + pending <= position,
                pending == cursor.pending + self.pending_between(*batch, loaded, p0, position as int),
                self.next_fetch(*batch, loaded, p0) == self.next_fetch(*batch, loaded, position as int),
            decreases batch.chunks.len() - position,
        {
            let (chunk_lat, chunk_lon) = batch.chunks[position];
            proof {
                assert(self.pending_between(*batch, loaded, p0, position + 1) == self.pending_between(*batch, loaded, p0, position as int)
                    + if self.counts_pending(*batch, loaded, position as int) { 1nat } else { 0nat });
            }
            let key = ChunkKey::new(batch.variable_name.as_str(), batch.time_idx, chunk_lat, chunk_lon);
            let cache_key = ChunkKey::new(batch.variable_name.as_str(), batch.time_idx, chunk_lat, chunk_lon).into_cache_key();
            if cache_contains(&self.cache, &cache_key) {
                position = position + 1;
                continue;
            }
            let range = self.chunk_to_range(chunk_lat, chunk_lon);
            let lat_extent = batch.shape[batch.lat_axis];
            let lon_extent = batch.shape[batch.lon_axis];
            let lat_end: u64 = if (range.lat_end as u64) <= lat_extent { range.lat_end as u64 } else { lat_extent };
            let lon_end: u64 = if (range.lon_end as u64) <= lon_extent { range.lon_end as u64 } else { lon_extent };
            if range.lat_start as u64 >= lat_end || range.lon_start as u64 >= lon_end {
                position = position + 1;
                continue;
            }
            if loaded >= batch.max_chunks {
                pending = pending + 1;
                position = position + 1;
                continue;
            }
            let mut ranges: Vec<std::ops::Range<u64>> = Vec::new();
            let mut d: usize = 0;
            while d < batch.ndim
                invariant
                    d <= batch.ndim,
                    batch.ndim <= batch.shape@.len(),
                    batch.lat_axis < batch.shape@.len(),
                    batch.lon_axis < batch.shape@.len(),
                    lat_end == clamped_end(range.lat_end, batch.shape@[batch.lat_axis as int]),
                    lon_end == clamped_end(range.lon_end, batch.shape@[batch.lon_axis as int]),
                    ranges@ == fetch_ranges(range, batch.shape@, batch.lat_axis, batch.lon_axis, batch.ndim, batch.time_idx).take(d as int),
                decreases batch.ndim - d,
            {
                if d == batch.lat_axis {
                    ranges.push(std::ops::Range { start: range.lat_start as u64, end: lat_end });
                } else if d == batch.lon_axis {
                    ranges.push(std::ops::Range { start: range.lon_start as u64, end: lon_end });
                } else {
                    let extent = batch.shape[d];
                    let wanted: u64 = if d == 0 { batch.time_idx as u64 } else { 0 };
                    let last: u64 = if extent >= 1 { extent - 1 } else { 0 };
                    let idx: u64 = if wanted <= last { wanted } else { last };
                    ranges.push(std::ops::Range { start: idx, end: idx + 1 });
                }
                proof {
                    let full = fetch_ranges(range, batch.shape@, batch.lat_axis, batch.lon_axis, batch.ndim, batch.time_idx);
                    assert(full.take(d + 1) == full.take(d as int).push(full[d as int]));
                }
                d = d + 1;
            }
            proof {
                let full = fetch_ranges(range, batch.shape@, batch.lat_axis, batch.lon_axis, batch.ndim, batch.time_idx);
                assert(full.take(batch.ndim as int) == full);
                assert(batch.chunks@[position as int] == (chunk_lat, chunk_lon));
                assert(key_view(cache_key) == batch_key(*batch, position as int));
                assert(range == self.batch_range(*batch, position as int));
                assert(self.fetches(*batch, loaded, position as int));
                assert(self.next_fetch(*batch, loaded, position as int) == position);
            }
            return (LoadCursor { position: position + 1, loaded, pending }, Some(ChunkFetch { key, range, ranges }));
        }
        self.last_loaded_count = loaded;
        self.pending_chunks = pending;
        (LoadCursor { position, loaded, pending }, None)
    }

    /// Records the outcome of fetching a chunk that `next_chunk_load` asked for: read
    /// data is cached under the chunk's key as the most recently used entry and
    /// counts as loaded; after a failed read the chunk, still needed and not cached,
    /// counts as pending.
    pub fn complete_chunk_load(&mut self, fetch: ChunkFetch, data: Option<ChunkData>, cursor: LoadCursor) -> (r: LoadCursor)
        requires
            old(self).wf(),
            fetch.range.lat_start == fetch.key.chunk_lat * old(self).chunk_size_lat(),
            fetch.range.lon_start == fetch.key.chunk_lon * old(self).chunk_size_lon(),
            cursor.loaded + cursor.pending < cursor.position,
        ensures
            final(self).wf(),
            final(self).capacity() == old(self).capacity(),
            final(self).chunk_size_lat() == old(self).chunk_size_lat(),
            final(self).chunk_size_lon() == old(self).chunk_size_lon(),
            final(self).total_lat() == old(self).total_lat(),
            final(self).total_lon() == old(self).total_lon(),
            final(self).last_loaded_count() == old(self).last_loaded_count(),
            final(self).pending_chunks() == old(self).pending_chunks(),
            r.position == cursor.position,
            r.loaded + r.pending <= r.position,
            match data {
                Some(d) => {
                    &&& final(self).entries() == put_entry(
                        old(self).entries(),
                        fetch.key@,
                        CachedChunk { data: d, range: fetch.range },
                        old(self).capacity(),
                    )
                    &&& r.loaded == cursor.loaded + 1
                    &&& r.pending == cursor.pending
                },
                None => {
                    &&& final(self).entries() == old(self).entries()
                    &&& r.loaded == cursor.loaded
                    &&& r.pending == cursor.pending + 1
                },
            },
    {
        match data {
            Some(d) => {
                let range = fetch.range;
                let key = fetch.key.into_cache_key();
                proof {
                    lemma_put(
                        self.entries(),
                        key_view(key),
                        CachedChunk { data: d, range },
                        self.capacity(),
                        self.chunk_size_lat,
                        self.chunk_size_lon,
                    );
                }
                cache_put(&mut self.cache, key, CachedChunk { data: d, range });
                LoadCursor { position: cursor.position, loaded: cursor.loaded + 1, pending: cursor.pending }
            },
            None => LoadCursor { position: cursor.position, loaded: cursor.loaded, pending: cursor.pending + 1 },
        }
    }

    /// Current number of cached chunks.
    pub fn cache_len(&self) -> (n: usize)
        ensures
            n == self.entries().len(),
            self.wf() ==> n <= self.capacity(),
    {
        cache_len(&self.cache)
    }
}

/// Two first matches of a key are the same position.
proof fn lemma_first_match_unique(entries: Seq<(CacheKeyView, CachedChunk)>, key: CacheKeyView, i: int, j: int)
    requires
        is_first_match(entries, key, i),
        is_first_match(entries, key, j),
    ensures
        i == j,
{
    if i < j {
        assert(entries[i].0 != key);
    } else if j < i {
        assert(entries[j].0 != key);
    }
}

/// Law: an element of the array lies in the chunk that `indices_to_chunk` names,
/// inside the range that `chunk_to_range` gives for that chunk, at a local offset
/// smaller than the chunk size; that range starts at a multiple of the chunk size
/// and spans a whole chunk, or ends at the array's end.
pub proof fn law_element_within_its_chunk(
    lat_idx: usize,
    lon_idx: usize,
    chunk_size_lat: usize,
    chunk_size_lon: usize,
    total_lat: usize,
    total_lon: usize,
)
    requires
        chunk_size_lat > 0,
        chunk_size_lon > 0,
        lat_idx < total_lat,
        lon_idx < total_lon,
    ensures
        ({
            let r = chunk_range(
                (lat_idx / chunk_size_lat) as usize,
                (lon_idx / chunk_size_lon) as usize,
                chunk_size_lat,
                chunk_size_lon,
                total_lat,
                total_lon,
            );
            &&& r.lat_start <= lat_idx < r.lat_end
            &&& r.lon_start <= lon_idx < r.lon_end
            &&& lat_idx - r.lat_start < chunk_size_lat
            &&& lon_idx - r.lon_start < chunk_size_lon
            &&& r.lat_start % chunk_size_lat == 0
            &&& r.lon_start % chunk_size_lon == 0
            &&& r.lat_end <= total_lat
            &&& r.lon_end <= total_lon
            &&& (r.lat_end == total_lat || r.lat_end - r.lat_start == chunk_size_lat)
            &&& (r.lon_end == total_lon || r.lon_end - r.lon_start == chunk_size_lon)
            &&& r.lat_end - r.lat_start <= chunk_size_lat
            &&& r.lon_end - r.lon_start <= chunk_size_lon
        }),
{
    let cl = lat_idx / chunk_size_lat;
    let cn = lon_idx / chunk_size_lon;
    assert(cl * chunk_size_lat <= lat_idx < (cl + 1) * chunk_size_lat) by (nonlinear_arith)
        requires cl == lat_idx / chunk_size_lat, chunk_size_lat > 0;
    assert(cn * chunk_size_lon <= lon_idx < (cn + 1) * chunk_size_lon) by (nonlinear_arith)
        requires cn == lon_idx / chunk_size_lon, chunk_size_lon > 0;
    assert((cl + 1) * chunk_size_lat == cl * chunk_size_lat + chunk_size_lat) by (nonlinear_arith);
    assert((cn + 1) * chunk_size_lon == cn * chunk_size_lon + chunk_size_lon) by (nonlinear_arith);
    vstd::arithmetic::div_mod::lemma_mod_multiples_basic(cl as int, chunk_size_lat as int);
    vstd::arithmetic::div_mod::lemma_mod_multiples_basic(cn as int, chunk_size_lon as int);
}

/// Law: a chunk just stored in the cache is its most recently used entry, and
/// reading an element through its key reads the stored data.
pub proof fn law_read_after_load(
    entries: Seq<(CacheKeyView, CachedChunk)>,
    key: CacheKeyView,
    chunk: CachedChunk,
    capacity: nat,
    lat_idx: usize,
    lon_idx: usize,
    lat_axis: usize,
    lon_axis: usize,
    ndim: usize,
)
    ensures
        put_entry(entries, key, chunk, capacity)[0] == (key, chunk),
        key_position(put_entry(entries, key, chunk, capacity), key) == Some(0int),
        cached_value(put_entry(entries, key, chunk, capacity), key, lat_idx, lon_idx, lat_axis, lon_axis, ndim)
            == cell_value(
            chunk.data,
            cell_index(
                ndim,
                lat_axis,
                (lat_idx - chunk.range.lat_start) as usize,
                lon_axis,
                (lon_idx - chunk.range.lon_start) as usize,
            ),
        ),
{
    let r = put_entry(entries, key, chunk, capacity);
    assert(is_first_match(r, key, 0));
    let c = choose|c: int| is_first_match(r, key, c);
    lemma_first_match_unique(r, key, 0, c);
}

/// Law: a lookup only reorders the cache; every element reads as it did before.
pub proof fn law_lookup_keeps_values(
    entries: Seq<(CacheKeyView, CachedChunk)>,
    looked_up: CacheKeyView,
    key: CacheKeyView,
    lat_idx: usize,
    lon_idx: usize,
    lat_axis: usize,
    lon_axis: usize,
    ndim: usize,
)
    requires
        unique_keys(entries),
    ensures
        touched(entries, looked_up).len() == entries.len(),
        cached_value(touched(entries, looked_up), key, lat_idx, lon_idx, lat_axis, lon_axis, ndim)
            == cached_value(entries, key, lat_idx, lon_idx, lat_axis, lon_axis, ndim),
{
    lemma_touched(entries, looked_up, 0, 0);
}

/// Law: storing a chunk never takes the cache beyond its capacity; storing a new
/// key into a full cache evicts exactly the least recently used entry, and into a
/// cache with room evicts nothing.
pub proof fn law_store_within_capacity(
    entries: Seq<(CacheKeyView, CachedChunk)>,
    key: CacheKeyView,
    chunk: CachedChunk,
    capacity: nat,
)
    requires
        capacity > 0,
        entries.len() <= capacity,
    ensures
        put_entry(entries, key, chunk, capacity).len() <= capacity,
        key_position(entries, key) is None && entries.len() == capacity ==>
            put_entry(entries, key, chunk, capacity).drop_first() == entries.drop_last(),
        key_position(entries, key) is None && entries.len() < capacity ==>
            put_entry(entries, key, chunk, capacity).drop_first() == entries,
{
    let r = put_entry(entries, key, chunk, capacity);
    if let Some(p) = key_position(entries, key) {
        assert(is_first_match(entries, key, p));
    } else if entries.len() == capacity {
        assert(r.drop_first() =~= entries.drop_last());
    } else {
        assert(r.drop_first() =~= entries);
    }
}

/// Law: a load pass only fetches chunks that are not cached, and only while fewer
/// than `max_chunks` chunks were loaded; every chunk it passes over is cached,
/// pending, or has an empty range.
pub proof fn law_fetches_only_uncached(m: ChunkManager, batch: LoadBatch, loaded: usize, p: int)
    requires
        0 <= p <= batch.chunks@.len(),
    ensures
        p <= m.next_fetch(batch, loaded, p) <= batch.chunks@.len(),
        m.next_fetch(batch, loaded, p) < batch.chunks@.len() ==> {
            &&& key_position(m.entries(), batch_key(batch, m.next_fetch(batch, loaded, p))) is None
            &&& loaded < batch.max_chunks
        },
        forall|j: int| p <= j < m.next_fetch(batch, loaded, p) ==> !m.fetches(batch, loaded, j),
    decreases batch.chunks@.len() - p,
{
    if p < batch.chunks@.len() && !m.fetches(batch, loaded, p) {
        law_fetches_only_uncached(m, batch, loaded, p + 1);
        assert forall|j: int| p <= j < m.next_fetch(batch, loaded, p) implies !m.fetches(batch, loaded, j) by {
            if j > p {
            }
        }
    }
}

/// The cache entries after one operation: a lookup of a key (`None`) or a store of a
/// chunk under a key (`Some`).
pub open spec fn apply_op(
    entries: Seq<(CacheKeyView, CachedChunk)>,
    op: (CacheKeyView, Option<CachedChunk>),
    capacity: nat,
) -> Seq<(CacheKeyView, CachedChunk)> {
    match op.1 {
        Some(chunk) => put_entry(entries, op.0, chunk, capacity),
        None => touched(entries, op.0),
    }
}

/// The cache entries after the operations `ops`, in order.
pub open spec fn apply_ops(
    entries: Seq<(CacheKeyView, CachedChunk)>,
    ops: Seq<(CacheKeyView, Option<CachedChunk>)>,
    capacity: nat,
) -> Seq<(CacheKeyView, CachedChunk)>
    decreases ops.len(),
{
    if ops.len() == 0 {
        entries
    } else {
        apply_ops(apply_op(entries, ops[0], capacity), ops.drop_first(), capacity)
    }
}

/// No store among `ops` evicts an entry: each stores under a key already cached,
/// or into a cache with room.
pub open spec fn evicts_nothing(
    entries: Seq<(CacheKeyView, CachedChunk)>,
    ops: Seq<(CacheKeyView, Option<CachedChunk>)>,
    capacity: nat,
) -> bool
    decreases ops.len(),
{
    ops.len() == 0 || {
        &&& (ops[0].1 is Some ==> key_position(entries, ops[0].0) is Some || entries.len() < capacity)
        &&& evicts_nothing(apply_op(entries, ops[0], capacity), ops.drop_first(), capacity)
    }
}

/// Storing under another key without evicting keeps an entry where `key_position`
/// finds it.
proof fn lemma_put_keeps(
    entries: Seq<(CacheKeyView, CachedChunk)>,
    key: CacheKeyView,
    value: CachedChunk,
    capacity: nat,
    k: CacheKeyView,
)
    requires
        unique_keys(entries),
        capacity > 0,
        k != key,
        key_position(entries, k) is Some,
        key_position(entries, key) is Some || entries.len() < capacity,
    ensures
        unique_keys(put_entry(entries, key, value, capacity)),
        key_position(put_entry(entries, key, value, capacity), k) is Some,
        put_entry(entries, key, value, capacity)[key_position(put_entry(entries, key, value, capacity), k)->0]
            == entries[key_position(entries, k)->0],
{
    let r = put_entry(entries, key, value, capacity);
    lemma_put(entries, key, value, capacity, 0, 0);
    let q = key_position(entries, k)->0;
    assert(is_first_match(entries, k, q));
    match key_position(entries, key) {
        Some(p) => {
            assert(is_first_match(entries, key, p));
            let idx = if q < p { q + 1 } else { q };
            assert(r[idx] == entries[q]);
            lemma_position_of_unique(r, k, idx);
        },
        None => {
            assert(r[q + 1] == entries[q]);
            lemma_position_of_unique(r, k, q + 1);
        },
    }
}

/// Operations that neither name `k` nor evict keep the entry stored under `k`.
proof fn lemma_ops_keep(
    entries: Seq<(CacheKeyView, CachedChunk)>,
    ops: Seq<(CacheKeyView, Option<CachedChunk>)>,
    capacity: nat,
    k: CacheKeyView,
)
    requires
        unique_keys(entries),
        capacity > 0,
        key_position(entries, k) is Some,
        evicts_nothing(entries, ops, capacity),
        forall|i: int| 0 <= i < ops.len() ==> #[trigger] ops[i].0 != k,
    ensures
        key_position(apply_ops(entries, ops, capacity), k) is Some,
        apply_ops(entries, ops, capacity)[key_position(apply_ops(entries, ops, capacity), k)->0]
            == entries[key_position(entries, k)->0],
    decreases ops.len(),
{
    if ops.len() > 0 {
        let next = apply_op(entries, ops[0], capacity);
        assert(ops[0].0 != k);
        match ops[0].1 {
            Some(chunk) => {
                lemma_put_keeps(entries, ops[0].0, chunk, capacity, k);
            },
            None => {
                lemma_touched(entries, ops[0].0, 0, 0);
                if key_position(touched(entries, ops[0].0), k) is None {
                }
            },
        }
        let rest = ops.drop_first();
        assert forall|i: int| 0 <= i < rest.len() implies #[trigger] rest[i].0 != k by {
            assert(rest[i] == ops[i + 1]);
        }
        lemma_ops_keep(next, rest, capacity, k);
    }
}

/// Law: a stored chunk reads back as stored after any later lookups and stores of
/// other keys, as long as none of them evicts an entry.
#[verifier::spinoff_prover]
#[verifier::rlimit(30)]
pub proof fn law_read_after_later_operations(
    entries: Seq<(CacheKeyView, CachedChunk)>,
    key: CacheKeyView,
    chunk: CachedChunk,
    ops: Seq<(CacheKeyView, Option<CachedChunk>)>,
    capacity: nat,
    lat_idx: usize,
    lon_idx: usize,
    lat_axis: usize,
    lon_axis: usize,
    ndim: usize,
)
    requires
        unique_keys(entries),
        capacity > 0,
        evicts_nothing(put_entry(entries, key, chunk, capacity), ops, capacity),
        forall|i: int| 0 <= i < ops.len() ==> #[trigger] ops[i].0 != key,
    ensures
        cached_value(apply_ops(put_entry(entries, key, chunk, capacity), ops, capacity), key, lat_idx, lon_idx, lat_axis, lon_axis, ndim)
            == cell_value(
            chunk.data,
            cell_index(
                ndim,
                lat_axis,
                (lat_idx - chunk.range.lat_start) as usize,
                lon_axis,
                (lon_idx - chunk.range.lon_start) as usize,
            ),
        ),
{
    let r = put_entry(entries, key, chunk, capacity);
    lemma_put(entries, key, chunk, capacity, 0, 0);
    law_read_after_load(entries, key, chunk, capacity, lat_idx, lon_idx, lat_axis, lon_axis, ndim);
    lemma_ops_keep(r, ops, capacity, key);
}

/// Below the load limit no chunk counts as pending.
proof fn lemma_no_pending_below_limit(m: ChunkManager, batch: LoadBatch, loaded: usize, p: int, q: int)
    requires
        loaded < batch.max_chunks,
    ensures
        m.pending_between(batch, loaded, p, q) == 0,
    decreases q - p,
{
    if q > p {
        lemma_no_pending_below_limit(m, batch, loaded, p, q - 1);
    }
}

/// Law: while the load limit is not reached (as in a pass with `max_chunks` equal
/// to `usize::MAX`), the schedule leaves no chunk pending: every chunk it passes
/// over is cached or not needed (its clamped range is empty), and the chunk it
/// returns is uncached and needed. Only failed reads then count as pending.
pub proof fn law_unlimited_pass(m: ChunkManager, batch: LoadBatch, loaded: usize, p: int)
    requires
        0 <= p <= batch.chunks@.len(),
        loaded < batch.max_chunks,
    ensures
        m.pending_between(batch, loaded, p, m.next_fetch(batch, loaded, p)) == 0,
        forall|j: int| p <= j < m.next_fetch(batch, loaded, p) ==> {
            ||| key_position(m.entries(), #[trigger] batch_key(batch, j)) is Some
            ||| !range_loadable(m.batch_range(batch, j), batch.shape@, batch.lat_axis, batch.lon_axis)
        },
        m.next_fetch(batch, loaded, p) < batch.chunks@.len() ==> {
            &&& key_position(m.entries(), batch_key(batch, m.next_fetch(batch, loaded, p))) is None
            &&& range_loadable(m.batch_range(batch, m.next_fetch(batch, loaded, p)), batch.shape@, batch.lat_axis, batch.lon_axis)
        },
{
    law_fetches_only_uncached(m, batch, loaded, p);
    lemma_no_pending_below_limit(m, batch, loaded, p, m.next_fetch(batch, loaded, p));
    lemma_next_fetch_fetches(m, batch, loaded, p);
    assert forall|j: int| p <= j < m.next_fetch(batch, loaded, p) implies {
        ||| key_position(m.entries(), #[trigger] batch_key(batch, j)) is Some
        ||| !range_loadable(m.batch_range(batch, j), batch.shape@, batch.lat_axis, batch.lon_axis)
    } by {
        assert(!m.fetches(batch, loaded, j));
    }
}

/// The chunk `next_fetch` returns is fetched.
proof fn lemma_next_fetch_fetches(m: ChunkManager, batch: LoadBatch, loaded: usize, p: int)
    requires
        0 <= p <= batch.chunks@.len(),
    ensures
        m.next_fetch(batch, loaded, p) < batch.chunks@.len() ==> m.fetches(batch, loaded, m.next_fetch(batch, loaded, p)),
    decreases batch.chunks@.len() - p,
{
    if p < batch.chunks@.len() && !m.fetches(batch, loaded, p) {
        lemma_next_fetch_fetches(m, batch, loaded, p + 1);
    }
}

/// The cell (`lat_idx`, `lon_idx`) holds a finite cached value.
pub open spec fn has_finite_value(
    entries: Seq<(CacheKeyView, CachedChunk)>,
    variable_name: Seq<char>,
    time_idx: usize,
    lat_idx: usize,
    lon_idx: usize,
    chunk_size_lat: usize,
    chunk_size_lon: usize,
    lat_axis: usize,
    lon_axis: usize,
    ndim: usize,
) -> bool {
    match cached_value(
        entries,
        element_key(variable_name, time_idx, lat_idx, lon_idx, chunk_size_lat, chunk_size_lon),
        lat_idx,
        lon_idx,
        lat_axis,
        lon_axis,
        ndim,
    ) {
        Some(v) => is_finite_bits(v),
        None => false,
    }
}

/// What holds of every pair of `lats` and `lons` holds of every point of their grid.
proof fn lemma_grid_all(lats: Seq<usize>, lons: Seq<usize>, pred: spec_fn(usize, usize) -> bool)
    requires
        forall|a: int, b: int| 0 <= a < lats.len() && 0 <= b < lons.len() ==> #[trigger] pred(lats[a], lons[b]),
    ensures
        forall|x: int| 0 <= x < grid(lats, lons).len() ==> #[trigger] pred(grid(lats, lons)[x].0, grid(lats, lons)[x].1),
    decreases lats.len(),
{
    if lats.len() > 0 {
        let d = lats.drop_last();
        assert forall|a: int, b: int| 0 <= a < d.len() && 0 <= b < lons.len() implies #[trigger] pred(d[a], lons[b]) by {
            assert(d[a] == lats[a]);
        }
        lemma_grid_all(d, lons, pred);
        let g0 = grid(d, lons);
        let row = lons.map_values(|lon: usize| (lats.last(), lon));
        let g = grid(lats, lons);
        assert(g == g0 + row);
        assert forall|x: int| 0 <= x < g.len() implies #[trigger] pred(g[x].0, g[x].1) by {
            if x < g0.len() {
                assert(g[x] == g0[x]);
            } else {
                let b = x - g0.len();
                assert(g[x] == row[b]);
                assert(pred(lats[lats.len() - 1], lons[b]));
            }
        }
    }
}

/// Points without a finite cached value yield no sample.
proof fn lemma_no_finite_samples(
    entries: Seq<(CacheKeyView, CachedChunk)>,
    variable_name: Seq<char>,
    time_idx: usize,
    points: Seq<(usize, usize)>,
    chunk_size_lat: usize,
    chunk_size_lon: usize,
    lat_axis: usize,
    lon_axis: usize,
    ndim: usize,
)
    requires
        forall|x: int| 0 <= x < points.len() ==> !#[trigger] has_finite_value(
            entries, variable_name, time_idx, points[x].0, points[x].1, chunk_size_lat, chunk_size_lon, lat_axis, lon_axis, ndim,
        ),
    ensures
        finite_samples(entries, variable_name, time_idx, points, chunk_size_lat, chunk_size_lon, lat_axis, lon_axis, ndim).len() == 0,
    decreases points.len(),
{
    if points.len() > 0 {
        let d = points.drop_last();
        assert forall|x: int| 0 <= x < d.len() implies !#[trigger] has_finite_value(
            entries, variable_name, time_idx, d[x].0, d[x].1, chunk_size_lat, chunk_size_lon, lat_axis, lon_axis, ndim,
        ) by {
            assert(d[x] == points[x]);
        }
        lemma_no_finite_samples(entries, variable_name, time_idx, d, chunk_size_lat, chunk_size_lon, lat_axis, lon_axis, ndim);
        assert(!has_finite_value(entries, variable_name, time_idx, points[points.len() - 1].0, points[points.len() - 1].1, chunk_size_lat, chunk_size_lon, lat_axis, lon_axis, ndim));
    }
}

/// Law: when no cell of a range holds a finite cached value, reading every cell of
/// the range yields no sample, so `get_averaged_value_if_cached` falls back to the
/// centre cell (which may itself be absent or not finite).
#[verifier::spinoff_prover]
#[verifier::rlimit(30)]
pub proof fn law_no_finite_value_falls_back(
    entries: Seq<(CacheKeyView, CachedChunk)>,
    variable_name: Seq<char>,
    time_idx: usize,
    lat_range: (usize, usize),
    lon_range: (usize, usize),
    chunk_size_lat: usize,
    chunk_size_lon: usize,
    lat_axis: usize,
    lon_axis: usize,
    ndim: usize,
)
    requires
        forall|i: usize, j: usize|
            lat_range.0 <= i < lat_range.1 && lon_range.0 <= j < lon_range.1 ==> !#[trigger] has_finite_value(
                entries, variable_name, time_idx, i, j, chunk_size_lat, chunk_size_lon, lat_axis, lon_axis, ndim,
            ),
    ensures
        finite_samples(
            entries,
            variable_name,
            time_idx,
            grid(cells_between(lat_range.0, lat_range.1), cells_between(lon_range.0, lon_range.1)),
            chunk_size_lat,
            chunk_size_lon,
            lat_axis,
            lon_axis,
            ndim,
        ).len() == 0,
{
    let lats = cells_between(lat_range.0, lat_range.1);
    let lons = cells_between(lon_range.0, lon_range.1);
    let pred = |i: usize, j: usize| !has_finite_value(entries, variable_name, time_idx, i, j, chunk_size_lat, chunk_size_lon, lat_axis, lon_axis, ndim);
    assert forall|a: int, b: int| 0 <= a < lats.len() && 0 <= b < lons.len() implies #[trigger] pred(lats[a], lons[b]) by {
        assert(lat_range.0 <= lats[a] < lat_range.1);
        assert(lon_range.0 <= lons[b] < lon_range.1);
    }
    lemma_grid_all(lats, lons, pred);
    let points = grid(lats, lons);
    assert forall|x: int| 0 <= x < points.len() implies !#[trigger] has_finite_value(
        entries, variable_name, time_idx, points[x].0, points[x].1, chunk_size_lat, chunk_size_lon, lat_axis, lon_axis, ndim,
    ) by {
        assert(pred(points[x].0, points[x].1));
    }
    lemma_no_finite_samples(entries, variable_name, time_idx, points, chunk_size_lat, chunk_size_lon, lat_axis, lon_axis, ndim);
}

/// Law: the subset read for a chunk has one range per axis: on the latitude and
/// longitude axes the chunk's range cut at the array's extent; on axis 0 (when it
/// is not spatial) the single index `time_idx`, or the last index when `time_idx`
/// lies beyond the axis; on every other axis the single index 0.
#[verifier::spinoff_prover]
#[verifier::rlimit(30)]
pub proof fn law_fetch_ranges_per_axis(
    range: ChunkRange,
    shape: Seq<u64>,
    lat_axis: usize,
    lon_axis: usize,
    ndim: usize,
    time_idx: usize,
)
    requires
        lat_axis < shape.len(),
        lon_axis < shape.len(),
        ndim <= shape.len(),
    ensures
        fetch_ranges(range, shape, lat_axis, lon_axis, ndim, time_idx).len() == ndim,
        forall|d: int|
            0 <= d < ndim && d == lat_axis ==> #[trigger] fetch_ranges(range, shape, lat_axis, lon_axis, ndim, time_idx)[d]
                == (std::ops::Range {
                start: range.lat_start as u64,
                end: if (range.lat_end as int) <= (shape[d] as int) { range.lat_end as u64 } else { shape[d] },
            }),
        forall|d: int|
            0 <= d < ndim && d != lat_axis && d == lon_axis ==> #[trigger] fetch_ranges(range, shape, lat_axis, lon_axis, ndim, time_idx)[d]
                == (std::ops::Range {
                start: range.lon_start as u64,
                end: if (range.lon_end as int) <= (shape[d] as int) { range.lon_end as u64 } else { shape[d] },
            }),
        forall|d: int|
            0 < d < ndim && d != lat_axis && d != lon_axis ==> #[trigger] fetch_ranges(range, shape, lat_axis, lon_axis, ndim, time_idx)[d]
                == (std::ops::Range { start: 0u64, end: 1u64 }),
        0 < ndim && lat_axis != 0 && lon_axis != 0 && (time_idx as int) < (shape[0] as int) ==>
            fetch_ranges(range, shape, lat_axis, lon_axis, ndim, time_idx)[0]
                == (std::ops::Range { start: time_idx as u64, end: (time_idx + 1) as u64 }),
        0 < ndim && lat_axis != 0 && lon_axis != 0 && (time_idx as int) >= (shape[0] as int) && shape[0] >= 1 ==>
            fetch_ranges(range, shape, lat_axis, lon_axis, ndim, time_idx)[0]
                == (std::ops::Range { start: (shape[0] - 1) as u64, end: shape[0] }),
{
}

/// Law: the bit pattern of an `f32` is finite exactly when its exponent field
/// (bits 23 to 30) is not all ones, whatever its sign and fraction; so a value and
/// its negation are finite together.
pub proof fn law_finite_bits(bits: u32)
    ensures
        is_finite_bits(bits) <==> ((bits >> 23u32) & 0xffu32) != 0xffu32,
        is_finite_bits(bits) == is_finite_bits(bits ^ 0x8000_0000u32),
{
    assert(((bits & 0x7f80_0000u32) != 0x7f80_0000u32) <==> (((bits >> 23u32) & 0xffu32) != 0xffu32)) by (bit_vector);
    assert(((bits & 0x7f80_0000u32) != 0x7f80_0000u32) == (((bits ^ 0x8000_0000u32) & 0x7f80_0000u32) != 0x7f80_0000u32)) by (bit_vector);
}

/// The grid of `lats` and `lons` has a point per pair.
proof fn lemma_grid_len(lats: Seq<usize>, lons: Seq<usize>)
    ensures
        grid(lats, lons).len() == lats.len() * lons.len(),
    decreases lats.len(),
{
    if lats.len() > 0 {
        lemma_grid_len(lats.drop_last(), lons);
        let n = lats.len() as int;
        let k = lons.len() as int;
        assert((n - 1) * k + k == n * k) by (nonlinear_arith);
    }
}

/// Points that all hold a finite cached value each yield a sample.
proof fn lemma_all_finite_samples(
    entries: Seq<(CacheKeyView, CachedChunk)>,
    variable_name: Seq<char>,
    time_idx: usize,
    points: Seq<(usize, usize)>,
    chunk_size_lat: usize,
    chunk_size_lon: usize,
    lat_axis: usize,
    lon_axis: usize,
    ndim: usize,
)
    requires
        forall|x: int| 0 <= x < points.len() ==> #[trigger] has_finite_value(
            entries, variable_name, time_idx, points[x].0, points[x].1, chunk_size_lat, chunk_size_lon, lat_axis, lon_axis, ndim,
        ),
    ensures
        finite_samples(entries, variable_name, time_idx, points, chunk_size_lat, chunk_size_lon, lat_axis, lon_axis, ndim).len() == points.len(),
    decreases points.len(),
{
    if points.len() > 0 {
        let d = points.drop_last();
        assert forall|x: int| 0 <= x < d.len() implies #[trigger] has_finite_value(
            entries, variable_name, time_idx, d[x].0, d[x].1, chunk_size_lat, chunk_size_lon, lat_axis, lon_axis, ndim,
        ) by {
            assert(d[x] == points[x]);
        }
        lemma_all_finite_samples(entries, variable_name, time_idx, d, chunk_size_lat, chunk_size_lon, lat_axis, lon_axis, ndim);
        assert(has_finite_value(entries, variable_name, time_idx, points[points.len() - 1].0, points[points.len() - 1].1, chunk_size_lat, chunk_size_lon, lat_axis, lon_axis, ndim));
    }
}

/// Law: when every cell of a range holds a cached value whose exponent field is not
/// all ones (a finite `f32`, negative or not), reading the range yields one sample
/// per cell.
#[verifier::spinoff_prover]
#[verifier::rlimit(30)]
pub proof fn law_finite_cells_all_sampled(
    entries: Seq<(CacheKeyView, CachedChunk)>,
    variable_name: Seq<char>,
    time_idx: usize,
    lat_range: (usize, usize),
    lon_range: (usize, usize),
    chunk_size_lat: usize,
    chunk_size_lon: usize,
    lat_axis: usize,
    lon_axis: usize,
    ndim: usize,
)
    requires
        forall|i: usize, j: usize|
            lat_range.0 <= i < lat_range.1 && lon_range.0 <= j < lon_range.1 ==> {
                let v = #[trigger] cached_value(
                    entries,
                    element_key(variable_name, time_idx, i, j, chunk_size_lat, chunk_size_lon),
                    i,
                    j,
                    lat_axis,
                    lon_axis,
                    ndim,
                );
                &&& v is Some
                &&& ((v->0 >> 23u32) & 0xffu32) != 0xffu32
            },
    ensures
        finite_samples(
            entries,
            variable_name,
            time_idx,
            grid(cells_between(lat_range.0, lat_range.1), cells_between(lon_range.0, lon_range.1)),
            chunk_size_lat,
            chunk_size_lon,
            lat_axis,
            lon_axis,
            ndim,
        ).len() == span(lat_range.0, lat_range.1) * span(lon_range.0, lon_range.1),
{
    let lats = cells_between(lat_range.0, lat_range.1);
    let lons = cells_between(lon_range.0, lon_range.1);
    let pred = |i: usize, j: usize| has_finite_value(entries, variable_name, time_idx, i, j, chunk_size_lat, chunk_size_lon, lat_axis, lon_axis, ndim);
    assert forall|a: int, b: int| 0 <= a < lats.len() && 0 <= b < lons.len() implies #[trigger] pred(lats[a], lons[b]) by {
        let i = lats[a];
        let j = lons[b];
        assert(lat_range.0 <= i < lat_range.1);
        assert(lon_range.0 <= j < lon_range.1);
        let v = cached_value(entries, element_key(variable_name, time_idx, i, j, chunk_size_lat, chunk_size_lon), i, j, lat_axis, lon_axis, ndim);
        law_finite_bits(v->0);
    }
    lemma_grid_all(lats, lons, pred);
    let points = grid(lats, lons);
    assert forall|x: int| 0 <= x < points.len() implies #[trigger] has_finite_value(
        entries, variable_name, time_idx, points[x].0, points[x].1, chunk_size_lat, chunk_size_lon, lat_axis, lon_axis, ndim,
    ) by {
        assert(pred(points[x].0, points[x].1));
    }
    lemma_all_finite_samples(entries, variable_name, time_idx, points, chunk_size_lat, chunk_size_lon, lat_axis, lon_axis, ndim);
    lemma_grid_len(lats, lons);
}

/// Law: the multi-index of a chunk element has one entry per axis: the local row on
/// the latitude axis, the local column on the longitude axis, 0 elsewhere.
pub proof fn law_cell_index(ndim: usize, lat_axis: usize, local_lat: usize, lon_axis: usize, local_lon: usize)
    requires
        lat_axis < ndim,
        lon_axis < ndim,
        lat_axis != lon_axis,
    ensures
        cell_index(ndim, lat_axis, local_lat, lon_axis, local_lon).len() == ndim,
        cell_index(ndim, lat_axis, local_lat, lon_axis, local_lon)[lat_axis as int] == local_lat,
        cell_index(ndim, lat_axis, local_lat, lon_axis, local_lon)[lon_axis as int] == local_lon,
        forall|d: int| 0 <= d < ndim && d != lat_axis && d != lon_axis ==> #[trigger] cell_index(ndim, lat_axis, local_lat, lon_axis, local_lon)[d] == 0,
{
}

/// Law: the grid lists every pair of `lats` and `lons` once, row by row: pair
/// (`a`, `b`) at position `a * lons.len() + b`.
#[verifier::spinoff_prover]
#[verifier::rlimit(30)]
pub proof fn law_grid_row_major(lats: Seq<usize>, lons: Seq<usize>, a: int, b: int)
    requires
        0 <= a < lats.len(),
        0 <= b < lons.len(),
    ensures
        grid(lats, lons).len() == lats.len() * lons.len(),
        grid(lats, lons)[a * lons.len() + b] == (lats[a], lons[b]),
    decreases lats.len(),
{
    lemma_grid_len(lats, lons);
    let d = lats.drop_last();
    let k = lons.len() as int;
    lemma_grid_len(d, lons);
    let g0 = grid(d, lons);
    let row = lons.map_values(|lon: usize| (lats.last(), lon));
    assert(grid(lats, lons) == g0 + row);
    if a < lats.len() - 1 {
        law_grid_row_major(d, lons, a, b);
        assert(a * k + b < d.len() * k) by (nonlinear_arith)
            requires a < d.len(), 0 <= b < k;
        assert(d[a] == lats[a]);
    } else {
        assert(a * k + b - g0.len() == b) by (nonlinear_arith)
            requires a == d.len(), g0.len() == d.len() * k;
        assert(a * k + b >= g0.len()) by (nonlinear_arith)
            requires a == d.len(), g0.len() == d.len() * k, b >= 0;
    }
}

/// Law: an element is looked up under the key of the chunk whose range holds it.
#[verifier::spinoff_prover]
#[verifier::rlimit(30)]
pub proof fn law_element_key_names_covering_chunk(
    variable_name: Seq<char>,
    time_idx: usize,
    lat_idx: usize,
    lon_idx: usize,
    chunk_lat: usize,
    chunk_lon: usize,
    chunk_size_lat: usize,
    chunk_size_lon: usize,
    total_lat: usize,
    total_lon: usize,
)
    requires
        chunk_size_lat > 0,
        chunk_size_lon > 0,
        chunk_range(chunk_lat, chunk_lon, chunk_size_lat, chunk_size_lon, total_lat, total_lon).lat_start <= lat_idx,
        lat_idx < chunk_range(chunk_lat, chunk_lon, chunk_size_lat, chunk_size_lon, total_lat, total_lon).lat_end,
        chunk_range(chunk_lat, chunk_lon, chunk_size_lat, chunk_size_lon, total_lat, total_lon).lon_start <= lon_idx,
        lon_idx < chunk_range(chunk_lat, chunk_lon, chunk_size_lat, chunk_size_lon, total_lat, total_lon).lon_end,
        (chunk_lat + 1) * chunk_size_lat <= usize::MAX,
        (chunk_lon + 1) * chunk_size_lon <= usize::MAX,
    ensures
        element_key(variable_name, time_idx, lat_idx, lon_idx, chunk_size_lat, chunk_size_lon)
            == (variable_name, time_idx, chunk_lat, chunk_lon),
{
    assert(chunk_lat * chunk_size_lat <= (chunk_lat + 1) * chunk_size_lat) by (nonlinear_arith);
    assert(chunk_lon * chunk_size_lon <= (chunk_lon + 1) * chunk_size_lon) by (nonlinear_arith);
    assert((chunk_lat + 1) * chunk_size_lat == chunk_lat * chunk_size_lat + chunk_size_lat) by (nonlinear_arith);
    assert((chunk_lon + 1) * chunk_size_lon == chunk_lon * chunk_size_lon + chunk_size_lon) by (nonlinear_arith);
    vstd::arithmetic::div_mod::lemma_fundamental_div_mod_converse(
        lat_idx as int,
        chunk_size_lat as int,
        chunk_lat as int,
        lat_idx - chunk_lat * chunk_size_lat,
    );
    vstd::arithmetic::div_mod::lemma_fundamental_div_mod_converse(
        lon_idx as int,
        chunk_size_lon as int,
        chunk_lon as int,
        lon_idx - chunk_lon * chunk_size_lon,
    );
}

/// Law: looking up a cached key makes its entry the most recently used and keeps
/// the other entries in their order.
pub proof fn law_lookup_makes_most_recent(entries: Seq<(CacheKeyView, CachedChunk)>, key: CacheKeyView, i: int)
    requires
        unique_keys(entries),
        0 <= i < entries.len(),
        entries[i].0 == key,
    ensures
        touched(entries, key).len() == entries.len(),
        touched(entries, key)[0] == entries[i],
        forall|j: int| 0 <= j < i ==> #[trigger] touched(entries, key)[j + 1] == entries[j],
        forall|j: int| i < j < entries.len() ==> #[trigger] touched(entries, key)[j] == entries[j],
{
    lemma_position_of_unique(entries, key, i);
    lemma_move_to_front(entries, i);
    assert forall|j: int| 0 <= j < i implies #[trigger] touched(entries, key)[j + 1] == entries[j] by {
        assert(touched(entries, key)[j + 1] == entries[j + 1 - 1]);
    }
}

} // verus!

//! The containers that hold chunk data: `ChunkData`, an n-dimensional array of
//! `f32` values kept as their IEEE-754 bit patterns (an `ndarray` array), and
//! the least-recently-used map from chunk keys to cached chunks (an `lru` cache).
use vstd::prelude::*;

verus! {

/// Row-major product of the axis lengths of `shape`.
pub open spec fn shape_size(shape: Seq<usize>) -> nat
    decreases shape.len(),
{
    if shape.len() == 0 {
        1
    } else {
        shape_size(shape.drop_last()) * (shape.last() as nat)
    }
}

/// Product of the non-zero axis lengths of `shape`.
pub open spec fn nonzero_size(shape: Seq<usize>) -> nat
    decreases shape.len(),
{
    if shape.len() == 0 {
        1
    } else if shape.last() == 0 {
        nonzero_size(shape.drop_last())
    } else {
        nonzero_size(shape.drop_last()) * (shape.last() as nat)
    }
}

/// `index` addresses an element of an array of shape `shape`.
pub open spec fn in_bounds(index: Seq<usize>, shape: Seq<usize>) -> bool {
    &&& index.len() == shape.len()
    &&& forall|i: int| 0 <= i < index.len() ==> #[trigger] index[i] < shape[i]
}

/// Position of the element at `index` in the row-major (C order) layout of `shape`.
pub open spec fn row_major_offset(index: Seq<usize>, shape: Seq<usize>) -> int
    decreases index.len(),
{
    if index.len() == 0 || shape.len() == 0 {
        0
    } else {
        row_major_offset(index.drop_last(), shape.drop_last()) * (shape.last() as int)
            + (index.last() as int)
    }
}

/// The elements of an array of shape `shape` whose row-major elements are `values`.
pub open spec fn row_major_cells(shape: Seq<usize>, values: Seq<u32>) -> Map<Seq<usize>, u32> {
    Map::new(
        |index: Seq<usize>| in_bounds(index, shape),
        |index: Seq<usize>| values[row_major_offset(index, shape)],
    )
}

/// An n-dimensional block of values, each the bit pattern of an `f32`.
#[verifier::external_body]
pub struct ChunkData {
    array: ndarray::ArrayD<u32>,
}

/// The elements of a chunk, by multi-index.
pub uninterp spec fn chunk_cells(data: ChunkData) -> Map<Seq<usize>, u32>;

/// `ndarray::ArrayBase::from_shape_vec` with a dynamic shape: the array holds
/// `values` in row-major order; it is refused when the number of values is not
/// the product of the axis lengths, or when the product of the non-zero axis
/// lengths exceeds `isize::MAX`.
#[verifier::external_body]
fn array_from_shape_vec(shape: Vec<usize>, values: Vec<u32>) -> (r: Option<ChunkData>)
    ensures
        r is Some <==> (nonzero_size(shape@) <= isize::MAX && shape_size(shape@)
            == values@.len()),
        r matches Some(data) ==> chunk_cells(data) == row_major_cells(shape@, values@),
{
    match ndarray::ArrayD::from_shape_vec(ndarray::IxDyn(shape.as_slice()), values) {
        Ok(array) => Some(ChunkData { array }),
        Err(_) => None,
    }
}

/// `ndarray::ArrayBase::get` with a slice index: the element at `index`, or
/// `None` when `index` does not address an element.
#[verifier::external_body]
fn array_get(data: &ChunkData, index: &Vec<usize>) -> (r: Option<u32>)
    ensures
        r == (if chunk_cells(*data).contains_key(index@) {
            Some(chunk_cells(*data)[index@])
        } else {
            None
        }),
{
    data.array.get(index.as_slice()).copied()
}

impl ChunkData {
    /// Builds a chunk from its axis lengths and its values in row-major order.
    pub fn new(shape: Vec<usize>, values: Vec<u32>) -> (r: Option<ChunkData>)
        ensures
            r is Some <==> (nonzero_size(shape@) <= isize::MAX && shape_size(shape@)
                == values@.len()),
            r matches Some(data) ==> chunk_cells(data) == row_major_cells(shape@, values@),
    {
        array_from_shape_vec(shape, values)
    }

    /// The value at a multi-index, or `None` when the index is out of bounds.
    pub fn get(&self, index: &Vec<usize>) -> (r: Option<u32>)
        ensures
            r == cell_value(*self, index@),
    {
        array_get(self, index)
    }
}

/// The element of `data` at `index`, if `index` addresses one.
pub open spec fn cell_value(data: ChunkData, index: Seq<usize>) -> Option<u32> {
    if chunk_cells(data).contains_key(index) {
        Some(chunk_cells(data)[index])
    } else {
        None
    }
}


/// Range of array indices covered by a chunk (end bounds exclusive).
#[derive(Debug, Clone, Copy, PartialEq, Eq)]
pub struct ChunkRange {
    pub lat_start: usize,
    pub lat_end: usize,
    pub lon_start: usize,
    pub lon_end: usize,
}

impl ChunkRange {
    /// Converts global indices to indices local to the chunk.
    pub fn to_local(&self, lat_idx: usize, lon_idx: usize) -> (r: (usize, usize))
        requires
            self.lat_start <= lat_idx,
            self.lon_start <= lon_idx,
        ensures
            r == ((lat_idx - self.lat_start) as usize, (lon_idx - self.lon_start) as usize),
    {
        (lat_idx - self.lat_start, lon_idx - self.lon_start)
    }
}

/// A cached chunk: its values and the range of array indices it covers.
pub struct CachedChunk {
    pub data: ChunkData,
    pub range: ChunkRange,
}

/// The least-recently-used cache of the `lru` crate.
#[verifier::external_type_specification]
#[verifier::external_body]
#[verifier::reject_recursive_types(K)]
#[verifier::reject_recursive_types(V)]
#[verifier::reject_recursive_types(S)]
pub struct ExLruCache<K, V, S>(lru::LruCache<K, V, S>);

/// Key of a cached chunk: variable name, time index, chunk row, chunk column.
pub type CacheKey = (String, usize, usize, usize);

/// What a cache key denotes.
pub type CacheKeyView = (Seq<char>, usize, usize, usize);

pub open spec fn key_view(key: CacheKey) -> CacheKeyView {
    (key.0@, key.1, key.2, key.3)
}

/// Entries of a chunk cache, from the most recently used to the least recently used.
pub uninterp spec fn cache_entries(cache: lru::LruCache<(String, usize, usize, usize), CachedChunk>) -> Seq<(CacheKeyView, CachedChunk)>;

/// The number of entries a chunk cache was made to hold.
pub uninterp spec fn cache_capacity(cache: lru::LruCache<(String, usize, usize, usize), CachedChunk>) -> nat;

/// `i` is the first position of `entries` whose key is `key`.
pub open spec fn is_first_match(entries: Seq<(CacheKeyView, CachedChunk)>, key: CacheKeyView, i: int) -> bool {
    &&& 0 <= i < entries.len()
    &&& entries[i].0 == key
    &&& forall|j: int| 0 <= j < i ==> entries[j].0 != key
}

/// Position of the entry with key `key`, if there is one.
pub open spec fn key_position(entries: Seq<(CacheKeyView, CachedChunk)>, key: CacheKeyView) -> Option<int> {
    if exists|i: int| is_first_match(entries, key, i) {
        Some(choose|i: int| is_first_match(entries, key, i))
    } else {
        None
    }
}

/// The entries after a lookup of `key`: a found entry becomes the most recent.
pub open spec fn touched(entries: Seq<(CacheKeyView, CachedChunk)>, key: CacheKeyView) -> Seq<(CacheKeyView, CachedChunk)> {
    match key_position(entries, key) {
        Some(i) => seq![entries[i]] + entries.remove(i),
        None => entries,
    }
}

/// The entries after storing `value` under `key` in a cache of capacity `capacity`:
/// the entry becomes the most recent, replacing an entry with the same key, or else
/// evicting the least recently used entry when the cache is full.
pub open spec fn put_entry(entries: Seq<(CacheKeyView, CachedChunk)>, key: CacheKeyView, value: CachedChunk, capacity: nat) -> Seq<(CacheKeyView, CachedChunk)> {
    match key_position(entries, key) {
        Some(i) => seq![(key, value)] + entries.remove(i),
        None => if entries.len() == capacity {
            seq![(key, value)] + entries.drop_last()
        } else {
            seq![(key, value)] + entries
        },
    }
}

/// `lru::LruCache::new`: an empty cache that holds at most `capacity` entries.
#[verifier::external_body]
pub(crate) fn cache_new(capacity: usize) -> (cache: lru::LruCache<CacheKey, CachedChunk>)
    requires
        capacity > 0,
    ensures
        cache_entries(cache) == Seq::<(CacheKeyView, CachedChunk)>::empty(),
        cache_capacity(cache) == capacity,
{
    lru::LruCache::new(std::num::NonZeroUsize::new(capacity).unwrap())
}

/// `lru::LruCache::len`: the number of entries.
#[verifier::external_body]
pub(crate) fn cache_len(cache: &lru::LruCache<CacheKey, CachedChunk>) -> (n: usize)
    ensures
        n == cache_entries(*cache).len(),
{
    cache.len()
}

/// `lru::LruCache::contains`: whether an entry has the key; the recency order is
/// left as it is.
#[verifier::external_body]
pub(crate) fn cache_contains(cache: &lru::LruCache<CacheKey, CachedChunk>, key: &CacheKey) -> (b: bool)
    ensures
        b == key_position(cache_entries(*cache), key_view(*key)) is Some,
{
    cache.contains(key)
}

/// `lru::LruCache::get`: the value stored under the key, whose entry becomes the
/// most recently used.
#[verifier::external_body]
pub(crate) fn cache_get<'a>(cache: &'a mut lru::LruCache<CacheKey, CachedChunk>, key: &CacheKey) -> (r: Option<&'a CachedChunk>)
    ensures
        cache_entries(*final(cache)) == touched(cache_entries(*old(cache)), key_view(*key)),
        cache_capacity(*final(cache)) == cache_capacity(*old(cache)),
        r == (match key_position(cache_entries(*old(cache)), key_view(*key)) {
            Some(i) => Some(&cache_entries(*old(cache))[i].1),
            None => None,
        }),
{
    cache.get(key)
}

/// `lru::LruCache::put`: stores the value under the key as the most recently used
/// entry (see `put_entry`).
#[verifier::external_body]
pub(crate) fn cache_put(cache: &mut lru::LruCache<CacheKey, CachedChunk>, key: CacheKey, value: CachedChunk)
    ensures
        cache_entries(*final(cache)) == put_entry(cache_entries(*old(cache)), key_view(key), value, cache_capacity(*old(cache))),
        cache_capacity(*final(cache)) == cache_capacity(*old(cache)),
{
    cache.put(key, value);
}

} // verus!

//! Which terrain chunks are loaded, and which ones a viewer at a given
//! chunk position still needs.
use vstd::prelude::*;

use bevy::utils::HashMap;

use crate::dual_contouring::DualContouring;
use crate::grid::GridPoint;

verus! {

/// Edge length of a terrain chunk, in lattice cells.
pub const CHUNK_SIZE: i32 = 32;

/// Chunks along each horizontal axis of the square kept around a viewer.
pub const CHUNK_RANGE: i32 = 8;

/// Height of the lowest lattice layer of every chunk.
pub const CHUNK_BASE_Y: i32 = -8;

/// Chunks loaded so far: the `(x, z)` origin of each chunk, mapped to the
/// bits of the entity that carries it.
#[verifier::external_body]
pub struct ChunkMap {
    map: HashMap<(i32, i32), u64>,
}

/// The map that holds no chunk.
pub open spec fn no_chunks() -> Map<(i32, i32), u64> {
    Map::empty()
}

/// What a `ChunkMap` holds.
pub uninterp spec fn chunk_map_contents(m: ChunkMap) -> Map<(i32, i32), u64>;

/// `bevy::utils::HashMap::default`: a map that holds nothing.
#[verifier::external_body]
fn chunk_map_new() -> (r: ChunkMap)
    ensures
        chunk_map_contents(r) == no_chunks(),
{
    ChunkMap { map: HashMap::default() }
}

/// `HashMap::contains_key`: whether the map holds `key`.
#[verifier::external_body]
fn chunk_map_contains(m: &ChunkMap, key: (i32, i32)) -> (r: bool)
    ensures
        r == chunk_map_contents(*m).contains_key(key),
{
    m.map.contains_key(&key)
}

/// `HashMap::insert`: afterwards `key` maps to `entity`, and every other
/// key to what it mapped to before.
#[verifier::external_body]
fn chunk_map_insert(m: &mut ChunkMap, key: (i32, i32), entity: u64)
    ensures
        chunk_map_contents(*final(m)) == chunk_map_contents(*old(m)).insert(key, entity),
{
    m.map.insert(key, entity);
}

/// The loaded chunks of the terrain, by origin.
pub struct TerrainChunks {
    chunks: ChunkMap,
}

impl View for TerrainChunks {
    type V = Map<(i32, i32), u64>;

    closed spec fn view(&self) -> Map<(i32, i32), u64> {
        chunk_map_contents(self.chunks)
    }
}

/// The origins of the `CHUNK_RANGE`² chunks around chunk origin
/// `(ox, oz)`, rows of increasing `z` offset, each by increasing `x` offset;
/// entry `t` has offsets `t % 8 - 4` and `t / 8 - 4` chunks.
pub open spec fn chunks_around(ox: int, oz: int) -> Seq<(i32, i32)> {
    Seq::new(
        64,
        |t: int| ((ox + (t % 8 - 4) * 32) as i32, (oz + (t / 8 - 4) * 32) as i32),
    )
}

/// Chunk origin `a` comes before `b` when spawning: by `z`, then by `x`.
pub open spec fn chunk_before(a: (i32, i32), b: (i32, i32)) -> bool {
    a.1 < b.1 || (a.1 == b.1 && a.0 < b.0)
}

/// The origin of the chunk `i` chunks along `x` and `j` along `z` from
/// chunk origin `(ox, oz)`.
pub open spec fn chunk_at(ox: int, oz: int, i: int, j: int) -> (i32, i32) {
    ((ox + CHUNK_SIZE * i) as i32, (oz + CHUNK_SIZE * j) as i32)
}

/// The chunk origins around `(ox, oz)` fit in `i32`.
pub open spec fn around_fits(ox: int, oz: int) -> bool {
    &&& i32::MIN <= ox - 128
    &&& ox + 96 <= i32::MAX
    &&& i32::MIN <= oz - 128
    &&& oz + 96 <= i32::MAX
}

/// The entries of `keys[..n]` that `loaded` does not hold, in order.
pub open spec fn missing_prefix(loaded: Map<(i32, i32), u64>, keys: Seq<(i32, i32)>, n: nat) -> Seq<
    (i32, i32),
>
    decreases n,
{
    if n == 0 {
        Seq::empty()
    } else {
        missing_prefix(loaded, keys, (n - 1) as nat) + if loaded.contains_key(keys[n - 1]) {
            Seq::empty()
        } else {
            seq![keys[n - 1]]
        }
    }
}

/// The chunks around `(ox, oz)` that are not loaded yet, in scan order.
pub open spec fn missing_around(loaded: Map<(i32, i32), u64>, ox: int, oz: int) -> Seq<(i32, i32)> {
    missing_prefix(loaded, chunks_around(ox, oz), 64)
}

impl TerrainChunks {
    /// No chunk loaded.
    pub fn new() -> (r: TerrainChunks)
        ensures
            r@ == no_chunks(),
    {
        TerrainChunks { chunks: chunk_map_new() }
    }

    /// Whether the chunk with origin `key` is loaded.
    pub fn is_loaded(&self, key: (i32, i32)) -> (r: bool)
        ensures
            r == self@.contains_key(key),
    {
        chunk_map_contains(&self.chunks, key)
    }

    /// Records that the chunk with origin `key` is carried by `entity`.
    pub fn register(&mut self, key: (i32, i32), entity: u64)
        ensures
            final(self)@ == old(self)@.insert(key, entity),
    {
        chunk_map_insert(&mut self.chunks, key, entity);
    }

    /// The chunks around chunk origin `(ox, oz)` that are not loaded yet, in
    /// the order in which they are to be spawned.
    pub fn missing_around(&self, ox: i32, oz: i32) -> (r: Vec<(i32, i32)>)
        requires
            around_fits(ox as int, oz as int),
        ensures
            r@ == missing_around(self@, ox as int, oz as int),
            forall|j: int|
                0 <= j < r@.len() ==> {
                    let k = #[trigger] r@[j];
                    &&& !self@.contains_key(k)
                    &&& (k.0 - ox) % 32 == 0
                    &&& -128 <= k.0 - ox < 128
                    &&& (k.1 - oz) % 32 == 0
                    &&& -128 <= k.1 - oz < 128
                },
            forall|i: int, j: int|
                -4 <= i < 4 && -4 <= j < 4 ==> self@.contains_key(
                    #[trigger] chunk_at(ox as int, oz as int, i, j),
                ) || r@.contains(chunk_at(ox as int, oz as int, i, j)),
            forall|j1: int, j2: int|
                0 <= j1 < j2 < r@.len() ==> chunk_before(#[trigger] r@[j1], #[trigger] r@[j2]),
    {
        proof {
            let ghost around = chunks_around(ox as int, oz as int);
            let ghost m = missing_around(self@, ox as int, oz as int);
            lemma_chunks_around_square(ox as int, oz as int);
            lemma_missing_around_exact(self@, ox as int, oz as int);
            lemma_missing_around_ordered(self@, ox as int, oz as int);
            assert forall|j: int| 0 <= j < m.len() implies {
                let k = #[trigger] m[j];
                &&& !self@.contains_key(k)
                &&& (k.0 - ox) % 32 == 0
                &&& -128 <= k.0 - ox < 128
                &&& (k.1 - oz) % 32 == 0
                &&& -128 <= k.1 - oz < 128
            } by {
                assert(around.contains(m[j]));
                let t = choose|t: int| 0 <= t < around.len() && around[t] == m[j];
                assert(around[t] == m[j]);
            }
            assert forall|i: int, j: int| -4 <= i < 4 && -4 <= j < 4 implies self@.contains_key(
                #[trigger] chunk_at(ox as int, oz as int, i, j),
            ) || m.contains(chunk_at(ox as int, oz as int, i, j)) by {
                let k = chunk_at(ox as int, oz as int, i, j);
                assert(around.contains(k));
                let t = choose|t: int| 0 <= t < around.len() && around[t] == k;
                assert(self@.contains_key(around[t]) || m.contains(around[t]));
            }
        }
        let keys = chunk_origins_around(ox, oz);
        let mut out: Vec<(i32, i32)> = Vec::new();
        let mut i: usize = 0;
        while i < keys.len()
            invariant
                keys@ == chunks_around(ox as int, oz as int),
                i <= keys@.len(),
                out@ == missing_prefix(self@, keys@, i as nat),
            decreases keys@.len() - i,
        {
            let key = keys[i];
            if !self.is_loaded(key) {
                out.push(key);
            }
            assert(out@ =~= missing_prefix(self@, keys@, (i + 1) as nat));
            i = i + 1;
        }
        out
    }
}

/// The origins of the chunks around chunk origin `(ox, oz)`, in scan order.
pub fn chunk_origins_around(ox: i32, oz: i32) -> (r: Vec<(i32, i32)>)
    requires
        around_fits(ox as int, oz as int),
    ensures
        r@ == chunks_around(ox as int, oz as int),
        r@.len() == 64,
        forall|t: int|
            0 <= t < 64 ==> {
                let k = #[trigger] r@[t];
                &&& (k.0 - ox) % 32 == 0
                &&& -128 <= k.0 - ox < 128
                &&& (k.1 - oz) % 32 == 0
                &&& -128 <= k.1 - oz < 128
            },
        forall|i: int, j: int|
            -4 <= i < 4 && -4 <= j < 4 ==> r@.contains(#[trigger] chunk_at(ox as int, oz as int, i, j)),
        forall|t1: int, t2: int|
            0 <= t1 < t2 < 64 ==> chunk_before(#[trigger] r@[t1], #[trigger] r@[t2]),
{
    proof {
        lemma_chunks_around_square(ox as int, oz as int);
    }
    let mut out: Vec<(i32, i32)> = Vec::new();
    let mut zc: i32 = -4;
    while zc < 4
        invariant
            around_fits(ox as int, oz as int),
            -4 <= zc <= 4,
            out@.len() == 8 * (zc + 4),
            forall|t: int|
                0 <= t < out@.len() ==> #[trigger] out@[t] == chunks_around(ox as int, oz as int)[t],
        decreases 4 - zc,
    {
        let mut xc: i32 = -4;
        while xc < 4
            invariant
                around_fits(ox as int, oz as int),
                -4 <= zc < 4,
                -4 <= xc <= 4,
                out@.len() == 8 * (zc + 4) + (xc + 4),
                forall|t: int|
                    0 <= t < out@.len() ==> #[trigger] out@[t] == chunks_around(
                        ox as int,
                        oz as int,
                    )[t],
            decreases 4 - xc,
        {
            let ghost t = out@.len() as int;
            assert(t % 8 == xc + 4 && t / 8 == zc + 4);
            out.push((ox + xc * CHUNK_SIZE, oz + zc * CHUNK_SIZE));
            xc = xc + 1;
        }
        zc = zc + 1;
    }
    assert(out@ =~= chunks_around(ox as int, oz as int));
    out
}

/// The block generator of the chunk with origin `key`: one cell more than
/// `CHUNK_SIZE` along each axis, so that neighbouring chunks overlap by a
/// layer of cells, starting at height `CHUNK_BASE_Y`.
pub fn chunk_generator(key: (i32, i32)) -> (r: DualContouring)
    ensures
        r.origin_point() == (GridPoint { x: key.0, y: CHUNK_BASE_Y, z: key.1 }),
        r.block_size() == CHUNK_SIZE + 1,
{
    DualContouring::new(GridPoint::new(key.0, CHUNK_BASE_Y, key.1), CHUNK_SIZE + 1)
}

/// The chunk origins around a position are pairwise different, so each
/// chunk is considered once per pass.
pub proof fn lemma_chunks_around_distinct(ox: int, oz: int)
    requires
        around_fits(ox, oz),
    ensures
        chunks_around(ox, oz).len() == 64,
        forall|i: int, j: int|
            0 <= i < j < 64 ==> chunks_around(ox, oz)[i] != chunks_around(ox, oz)[j],
{
    assert forall|i: int, j: int| 0 <= i < j < 64 implies chunks_around(ox, oz)[i] != chunks_around(
        ox,
        oz,
    )[j] by {
        let a = chunks_around(ox, oz)[i];
        let b = chunks_around(ox, oz)[j];
        assert(a.0 == ox + (i % 8 - 4) * 32);
        assert(b.0 == ox + (j % 8 - 4) * 32);
        assert(a.1 == oz + (i / 8 - 4) * 32);
        assert(b.1 == oz + (j / 8 - 4) * 32);
    }
}

proof fn lemma_missing_prefix(loaded: Map<(i32, i32), u64>, keys: Seq<(i32, i32)>, n: nat)
    requires
        n <= keys.len(),
    ensures
        forall|i: int|
            0 <= i < n ==> loaded.contains_key(keys[i]) || missing_prefix(
                loaded,
                keys,
                n,
            ).contains(#[trigger] keys[i]),
        forall|j: int|
            0 <= j < missing_prefix(loaded, keys, n).len() ==> {
                let k = #[trigger] missing_prefix(loaded, keys, n)[j];
                &&& !loaded.contains_key(k)
                &&& keys.subrange(0, n as int).contains(k)
            },
    decreases n,
{
    if n > 0 {
        let prev = missing_prefix(loaded, keys, (n - 1) as nat);
        let cur = missing_prefix(loaded, keys, n);
        lemma_missing_prefix(loaded, keys, (n - 1) as nat);
        assert forall|i: int| 0 <= i < n implies loaded.contains_key(keys[i]) || cur.contains(
            #[trigger] keys[i],
        ) by {
            if i < n - 1 {
                if prev.contains(keys[i]) {
                    let j = choose|j: int| 0 <= j < prev.len() && prev[j] == keys[i];
                    assert(cur[j] == keys[i]);
                }
            } else if !loaded.contains_key(keys[i]) {
                assert(cur[prev.len() as int] == keys[i]);
            }
        }
        assert forall|j: int| 0 <= j < cur.len() implies {
            let k = #[trigger] cur[j];
            &&& !loaded.contains_key(k)
            &&& keys.subrange(0, n as int).contains(k)
        } by {
            if j < prev.len() {
                assert(cur[j] == prev[j]);
                let k = prev[j];
                let sub = keys.subrange(0, n - 1);
                assert(sub.contains(k));
                let i = choose|i: int| 0 <= i < sub.len() && #[trigger] sub[i] == k;
                assert(keys.subrange(0, n as int)[i] == k);
            } else {
                assert(cur[j] == keys[n - 1]);
                assert(keys.subrange(0, n as int)[n - 1] == keys[n - 1]);
            }
        }
    }
}

/// Every chunk around a position is loaded already or among the missing
/// ones; every missing one lies around the position and is not loaded.
pub proof fn lemma_missing_around_exact(loaded: Map<(i32, i32), u64>, ox: int, oz: int)
    ensures
        forall|i: int|
            0 <= i < 64 ==> loaded.contains_key(chunks_around(ox, oz)[i]) || missing_around(
                loaded,
                ox,
                oz,
            ).contains(#[trigger] chunks_around(ox, oz)[i]),
        forall|j: int|
            0 <= j < missing_around(loaded, ox, oz).len() ==> {
                let k = #[trigger] missing_around(loaded, ox, oz)[j];
                &&& !loaded.contains_key(k)
                &&& chunks_around(ox, oz).contains(k)
            },
{
    let keys = chunks_around(ox, oz);
    lemma_missing_prefix(loaded, keys, 64);
    assert(keys.subrange(0, 64) =~= keys);
}

proof fn lemma_missing_prefix_empty(loaded: Map<(i32, i32), u64>, keys: Seq<(i32, i32)>, n: nat)
    requires
        n <= keys.len(),
        forall|i: int| 0 <= i < n ==> loaded.contains_key(#[trigger] keys[i]),
    ensures
        missing_prefix(loaded, keys, n).len() == 0,
    decreases n,
{
    if n > 0 {
        lemma_missing_prefix_empty(loaded, keys, (n - 1) as nat);
        assert(loaded.contains_key(keys[n - 1]));
    }
}

/// Once every chunk that was missing around a position has been
/// registered (and nothing was dropped), none is missing there any more.
pub proof fn lemma_registering_missing_completes(
    before: Map<(i32, i32), u64>,
    after: Map<(i32, i32), u64>,
    ox: int,
    oz: int,
)
    requires
        forall|k: (i32, i32)| before.contains_key(k) ==> after.contains_key(k),
        forall|j: int|
            0 <= j < missing_around(before, ox, oz).len() ==> after.contains_key(
                #[trigger] missing_around(before, ox, oz)[j],
            ),
    ensures
        missing_around(after, ox, oz).len() == 0,
{
    let keys = chunks_around(ox, oz);
    lemma_missing_around_exact(before, ox, oz);
    assert forall|i: int| 0 <= i < 64 implies after.contains_key(#[trigger] keys[i]) by {
        if !before.contains_key(keys[i]) {
            let m = missing_around(before, ox, oz);
            assert(m.contains(keys[i]));
            let j = choose|j: int| 0 <= j < m.len() && m[j] == keys[i];
            assert(after.contains_key(m[j]));
        }
    }
    lemma_missing_prefix_empty(after, keys, 64);
}

/// A registered chunk is loaded, and registering a chunk keeps every other
/// chunk loaded that was.
pub proof fn lemma_register_loads(
    loaded: Map<(i32, i32), u64>,
    key: (i32, i32),
    entity: u64,
    other: (i32, i32),
)
    ensures
        loaded.insert(key, entity).contains_key(key),
        loaded.insert(key, entity)[key] == entity,
        loaded.contains_key(other) ==> loaded.insert(key, entity).contains_key(other),
        other != key ==> loaded.insert(key, entity).contains_key(other) == loaded.contains_key(other),
{
}

/// The chunks around a position are the 8 × 8 chunks from four chunks
/// before it to three chunks after it along `x` and along `z`, each once,
/// ordered by `z` and then by `x`.
pub proof fn lemma_chunks_around_square(ox: int, oz: int)
    requires
        around_fits(ox, oz),
    ensures
        chunks_around(ox, oz).len() == 64,
        forall|t: int|
            0 <= t < 64 ==> {
                let k = #[trigger] chunks_around(ox, oz)[t];
                &&& (k.0 - ox) % 32 == 0
                &&& -128 <= k.0 - ox < 128
                &&& (k.1 - oz) % 32 == 0
                &&& -128 <= k.1 - oz < 128
            },
        forall|i: int, j: int|
            -4 <= i < 4 && -4 <= j < 4 ==> chunks_around(ox, oz).contains(
                #[trigger] chunk_at(ox, oz, i, j),
            ),
        forall|t1: int, t2: int|
            0 <= t1 < t2 < 64 ==> chunk_before(
                #[trigger] chunks_around(ox, oz)[t1],
                #[trigger] chunks_around(ox, oz)[t2],
            ),
{
    let r = chunks_around(ox, oz);
    assert forall|t: int| 0 <= t < 64 implies {
        let k = #[trigger] r[t];
        &&& (k.0 - ox) % 32 == 0
        &&& -128 <= k.0 - ox < 128
        &&& (k.1 - oz) % 32 == 0
        &&& -128 <= k.1 - oz < 128
    } by {
        assert(r[t].0 - ox == (t % 8 - 4) * 32);
        assert(r[t].1 - oz == (t / 8 - 4) * 32);
    }
    assert forall|i: int, j: int| -4 <= i < 4 && -4 <= j < 4 implies r.contains(
        #[trigger] chunk_at(ox, oz, i, j),
    ) by {
        let t = 8 * (j + 4) + (i + 4);
        assert(t % 8 == i + 4 && t / 8 == j + 4);
        assert(r[t] == chunk_at(ox, oz, i, j));
    }
    assert forall|t1: int, t2: int| 0 <= t1 < t2 < 64 implies chunk_before(
        #[trigger] r[t1],
        #[trigger] r[t2],
    ) by {
        assert(r[t1].1 == oz + (t1 / 8 - 4) * 32);
        assert(r[t2].1 == oz + (t2 / 8 - 4) * 32);
        assert(r[t1].0 == ox + (t1 % 8 - 4) * 32);
        assert(r[t2].0 == ox + (t2 % 8 - 4) * 32);
        assert(t1 / 8 <= t2 / 8);
        if t1 / 8 == t2 / 8 {
            assert(t1 % 8 < t2 % 8);
        }
    }
}

proof fn lemma_missing_prefix_sorted(loaded: Map<(i32, i32), u64>, keys: Seq<(i32, i32)>, n: nat)
    requires
        n <= keys.len(),
        forall|t1: int, t2: int|
            0 <= t1 < t2 < keys.len() ==> chunk_before(#[trigger] keys[t1], #[trigger] keys[t2]),
    ensures
        forall|j1: int, j2: int|
            0 <= j1 < j2 < missing_prefix(loaded, keys, n).len() ==> chunk_before(
                #[trigger] missing_prefix(loaded, keys, n)[j1],
                #[trigger] missing_prefix(loaded, keys, n)[j2],
            ),
    decreases n,
{
    if n > 0 {
        let prev = missing_prefix(loaded, keys, (n - 1) as nat);
        let cur = missing_prefix(loaded, keys, n);
        lemma_missing_prefix_sorted(loaded, keys, (n - 1) as nat);
        lemma_missing_prefix(loaded, keys, (n - 1) as nat);
        assert forall|j1: int, j2: int| 0 <= j1 < j2 < cur.len() implies chunk_before(
            #[trigger] cur[j1],
            #[trigger] cur[j2],
        ) by {
            assert(cur[j1] == prev[j1]);
            if j2 < prev.len() {
                assert(cur[j2] == prev[j2]);
            } else {
                assert(cur[j2] == keys[n - 1]);
                let k = prev[j1];
                let sub = keys.subrange(0, n - 1);
                assert(sub.contains(k));
                let i = choose|i: int| 0 <= i < sub.len() && #[trigger] sub[i] == k;
                assert(keys[i] == k);
                assert(chunk_before(keys[i], keys[n - 1]));
            }
        }
    }
}

/// The missing chunks come in spawning order: by `z`, then by `x`.
pub proof fn lemma_missing_around_ordered(loaded: Map<(i32, i32), u64>, ox: int, oz: int)
    requires
        around_fits(ox, oz),
    ensures
        forall|j1: int, j2: int|
            0 <= j1 < j2 < missing_around(loaded, ox, oz).len() ==> chunk_before(
                #[trigger] missing_around(loaded, ox, oz)[j1],
                #[trigger] missing_around(loaded, ox, oz)[j2],
            ),
{
    lemma_chunks_around_square(ox, oz);
    lemma_missing_prefix_sorted(loaded, chunks_around(ox, oz), 64);
}

} // verus!

use vstd::prelude::*;

use crate::components::Dirty;
use crate::coords::{
    chunk_coordinate_of_spec, chunk_extent, chunk_extent_of, view_fits, visible_coordinates,
    visible_square, ChunkCoords,
};
use crate::entropy::chunk_hash;
use crate::schematic::SchematicAsset;
use crate::stitcher::{neighbors_complete, stitched, Adjacencies, Stitcher, RING_CELLS};
use crate::wfc::{copy_cells, generated, WaveFunctionCollapse, CHUNK_CELLS};

verus! {

broadcast use vstd::seq_lib::group_seq_properties;

/// A live chunk: its interior grid, its perimeter ring (all `None` until
/// stitched) and whether the ring still awaits missing neighbours.
pub struct Chunk {
    pub coords: ChunkCoords,
    pub tiles: Vec<Option<u8>>,
    pub stitched: Vec<Option<u8>>,
    pub dirty: bool,
}

impl Chunk {
    /// The marker a host attaches to this chunk while its ring awaits
    /// missing neighbours.
    pub fn dirty_marker(&self) -> (r: Option<Dirty>)
        ensures
            r is Some <==> self.dirty,
    {
        if self.dirty {
            Some(Dirty)
        } else {
            None
        }
    }
}

/// The origin of the chunk next to `c` on side `s` (0 north, 1 east,
/// 2 south, 3 west), if it is representable.
pub open spec fn neighbor_coords(c: ChunkCoords, extent: int, s: int) -> Option<ChunkCoords> {
    let x = if s == 1 {
        c.0 + extent
    } else if s == 3 {
        c.0 - extent
    } else {
        c.0 as int
    };
    let y = if s == 0 {
        c.1 + extent
    } else if s == 2 {
        c.1 - extent
    } else {
        c.1 as int
    };
    if i64::MIN <= x <= i64::MAX && i64::MIN <= y <= i64::MAX {
        Some(ChunkCoords(x as i64, y as i64))
    } else {
        None
    }
}

/// The origin of the chunk next to `c` on side `s`.
pub fn neighbor(c: &ChunkCoords, extent: i64, s: usize) -> (r: Option<ChunkCoords>)
    requires
        extent > 0,
        s < 4,
    ensures
        r == neighbor_coords(*c, extent as int, s as int),
{
    let x = if s == 1 {
        c.0.checked_add(extent)
    } else if s == 3 {
        c.0.checked_sub(extent)
    } else {
        Some(c.0)
    };
    let y = if s == 0 {
        c.1.checked_add(extent)
    } else if s == 2 {
        c.1.checked_sub(extent)
    } else {
        Some(c.1)
    };
    match (x, y) {
        (Some(x), Some(y)) => Some(ChunkCoords(x, y)),
        _ => None,
    }
}

/// Whether the store holds a chunk at `c`.
pub open spec fn holds(chunks: Seq<Chunk>, c: ChunkCoords) -> bool {
    exists|j: int| 0 <= j < chunks.len() && (#[trigger] chunks[j]).coords == c
}

/// The interior grid of the chunk at `c`.
pub open spec fn grid_at(chunks: Seq<Chunk>, c: ChunkCoords) -> Seq<Option<u8>> {
    chunks[choose|j: int| 0 <= j < chunks.len() && (#[trigger] chunks[j]).coords == c].tiles@
}

/// No two chunks of the store share coordinates.
pub open spec fn coords_unique(chunks: Seq<Chunk>) -> bool {
    forall|i: int, j: int|
        0 <= i < chunks.len() && 0 <= j < chunks.len() && i != j ==> (#[trigger] chunks[i]).coords
            != (#[trigger] chunks[j]).coords
}

/// A consistent chunk store: unique coordinates, full interior grids.
pub open spec fn store_wf(chunks: Seq<Chunk>) -> bool {
    &&& coords_unique(chunks)
    &&& forall|j: int| 0 <= j < chunks.len() ==> (#[trigger] chunks[j]).tiles@.len() == CHUNK_CELLS
}

/// The interiors of the chunks around `c` that the store holds.
pub open spec fn neighbors_in(chunks: Seq<Chunk>, c: ChunkCoords, extent: int) -> Seq<
    Option<Seq<Option<u8>>>,
> {
    Seq::new(
        4,
        |s: int|
            match neighbor_coords(c, extent, s) {
                Some(n) => if holds(chunks, n) {
                    Some(grid_at(chunks, n))
                } else {
                    None
                },
                None => None,
            },
    )
}

/// The position in the store of the chunk at `c`.
pub fn find_chunk(chunks: &Vec<Chunk>, c: &ChunkCoords) -> (r: Option<usize>)
    ensures
        match r {
            Some(j) => j < chunks@.len() && chunks@[j as int].coords == *c,
            None => !holds(chunks@, *c),
        },
{
    let mut j: usize = 0;
    while j < chunks.len()
        invariant
            0 <= j <= chunks@.len(),
            forall|k: int| 0 <= k < j ==> (#[trigger] chunks@[k]).coords != *c,
        decreases chunks@.len() - j,
    {
        if chunks[j].coords == *c {
            return Some(j);
        }
        j = j + 1;
    }
    None
}

proof fn lemma_grid_at(chunks: Seq<Chunk>, c: ChunkCoords, j: int)
    requires
        coords_unique(chunks),
        0 <= j < chunks.len(),
        chunks[j].coords == c,
    ensures
        holds(chunks, c),
        grid_at(chunks, c) == chunks[j].tiles@,
{
    let k = choose|k: int| 0 <= k < chunks.len() && (#[trigger] chunks[k]).coords == c;
    if k != j {
        assert(chunks[k].coords != chunks[j].coords);
    }
}

/// Copies the interior of the neighbour on side `s` of `coords`, if the store
/// holds it.
fn neighbor_grid(coords: &ChunkCoords, chunks: &Vec<Chunk>, extent: i64, s: usize) -> (r: Option<
    Vec<Option<u8>>,
>)
    requires
        extent > 0,
        s < 4,
        coords_unique(chunks@),
    ensures
        match r {
            Some(g) => neighbors_in(chunks@, *coords, extent as int)[s as int] == Some(g@),
            None => neighbors_in(chunks@, *coords, extent as int)[s as int] is None,
        },
{
    match neighbor(coords, extent, s) {
        None => None,
        Some(n) => match find_chunk(chunks, &n) {
            None => None,
            Some(j) => {
                proof {
                    lemma_grid_at(chunks@, n, j as int);
                }
                Some(copy_cells(&chunks[j].tiles))
            },
        },
    }
}

/// The interiors of the four chunks around `coords` that the store holds.
pub fn get_connected_chunks(coords: &ChunkCoords, chunks: &Vec<Chunk>, extent: i64) -> (r:
    Adjacencies)
    requires
        extent > 0,
        coords_unique(chunks@),
    ensures
        r.view() == neighbors_in(chunks@, *coords, extent as int),
{
    let north = neighbor_grid(coords, chunks, extent, 0);
    let east = neighbor_grid(coords, chunks, extent, 1);
    let south = neighbor_grid(coords, chunks, extent, 2);
    let west = neighbor_grid(coords, chunks, extent, 3);
    let r = Adjacencies { north, east, south, west };
    assert(r.view() =~= neighbors_in(chunks@, *coords, extent as int));
    r
}

/// A ring with no resolved cell.
fn blank_ring() -> (r: Vec<Option<u8>>)
    ensures
        r@ == Seq::new(RING_CELLS as nat, |i: int| None::<u8>),
{
    let mut out: Vec<Option<u8>> = Vec::new();
    let mut i: usize = 0;
    while i < RING_CELLS
        invariant
            0 <= i <= RING_CELLS,
            out@ == Seq::new(i as nat, |k: int| None::<u8>),
        decreases RING_CELLS - i,
    {
        out.push(None);
        i = i + 1;
        assert(out@ =~= Seq::new(i as nat, |k: int| None::<u8>));
    }
    out
}

/// Generates a new chunk at `coords`: its interior solved, its ring blank,
/// and marked dirty.
pub fn spawn_chunk(world_seed: u64, schematic: &SchematicAsset, coords: ChunkCoords) -> (r: Chunk)
    requires
        schematic.wf(),
    ensures
        r.coords == coords,
        r.tiles@ == generated(*schematic, world_seed, coords),
        r.stitched@ == Seq::new(RING_CELLS as nat, |i: int| None::<u8>),
        r.dirty,
{
    let mut wfc = WaveFunctionCollapse::init(world_seed, schematic, coords);
    let tiles = wfc.collapse();
    Chunk { coords, tiles, stitched: blank_ring(), dirty: true }
}

proof fn lemma_neighbors_same(a: Seq<Chunk>, b: Seq<Chunk>, c: ChunkCoords, extent: int)
    requires
        a.len() == b.len(),
        coords_unique(a),
        forall|k: int|
            0 <= k < a.len() ==> (#[trigger] a[k]).coords == b[k].coords && a[k].tiles@ == b[k].tiles@,
    ensures
        coords_unique(b),
        neighbors_in(a, c, extent) == neighbors_in(b, c, extent),
{
    assert forall|i: int, j: int|
        0 <= i < b.len() && 0 <= j < b.len() && i != j implies (#[trigger] b[i]).coords
            != (#[trigger] b[j]).coords by {
        assert(a[i].coords != a[j].coords);
    }
    assert forall|s: int| 0 <= s < 4 implies #[trigger] neighbors_in(a, c, extent)[s] == neighbors_in(
        b,
        c,
        extent,
    )[s] by {
        if let Some(n) = neighbor_coords(c, extent, s) {
            if holds(a, n) {
                let j = choose|j: int| 0 <= j < a.len() && (#[trigger] a[j]).coords == n;
                lemma_grid_at(a, n, j);
                lemma_grid_at(b, n, j);
            } else if holds(b, n) {
                let j = choose|j: int| 0 <= j < b.len() && (#[trigger] b[j]).coords == n;
                assert(a[j].coords == n);
            }
        }
    }
    assert(neighbors_in(a, c, extent) =~= neighbors_in(b, c, extent));
}

proof fn lemma_neighbors_wf(chunks: Seq<Chunk>, c: ChunkCoords, extent: int)
    requires
        store_wf(chunks),
    ensures
        crate::stitcher::neighbors_wf(neighbors_in(chunks, c, extent)),
{
    let adj = neighbors_in(chunks, c, extent);
    assert forall|s: int| 0 <= s < 4 && (#[trigger] adj[s]) is Some implies adj[s]->0.len()
        == CHUNK_CELLS by {
        let n = neighbor_coords(c, extent, s)->0;
        let j = choose|j: int| 0 <= j < chunks.len() && (#[trigger] chunks[j]).coords == n;
        lemma_grid_at(chunks, n, j);
    }
}

/// Stitches every dirty chunk against the neighbours the store holds; the
/// neighbours' interiors are what matters, and stitching leaves them as they
/// are. A chunk stays dirty while one of its four neighbours is missing.
pub fn gen_chunk_stitches(
    world_seed: u64,
    schematic: &SchematicAsset,
    chunks: &mut Vec<Chunk>,
    extent: i64,
)
    requires
        schematic.wf(),
        extent > 0,
        store_wf(old(chunks)@),
    ensures
        final(chunks)@.len() == old(chunks)@.len(),
        store_wf(final(chunks)@),
        forall|j: int|
            0 <= j < old(chunks)@.len() ==> {
                let before = old(chunks)@[j];
                let after = #[trigger] final(chunks)@[j];
                let adj = neighbors_in(old(chunks)@, before.coords, extent as int);
                &&& after.coords == before.coords
                &&& after.tiles@ == before.tiles@
                &&& before.dirty ==> after.stitched@ == stitched(
                    *schematic,
                    chunk_hash(world_seed, before.coords),
                    before.tiles@,
                    adj,
                ) && after.dirty == !neighbors_complete(adj)
                &&& !before.dirty ==> after.stitched@ == before.stitched@ && !after.dirty
            },
{
    let ghost before = chunks@;
    let n = chunks.len();
    let mut j: usize = 0;
    while j < n
        invariant
            0 <= j <= n,
            n == before.len(),
            chunks@.len() == n,
            schematic.wf(),
            extent > 0,
            store_wf(before),
            forall|k: int|
                0 <= k < n ==> (#[trigger] chunks@[k]).coords == before[k].coords && chunks@[k].tiles@
                    == before[k].tiles@,
            forall|k: int| j <= k < n ==> #[trigger] chunks@[k] == before[k],
            forall|k: int|
                0 <= k < j ==> {
                    let b = before[k];
                    let a = #[trigger] chunks@[k];
                    let adj = neighbors_in(before, b.coords, extent as int);
                    &&& b.dirty ==> a.stitched@ == stitched(
                        *schematic,
                        chunk_hash(world_seed, b.coords),
                        b.tiles@,
                        adj,
                    ) && a.dirty == !neighbors_complete(adj)
                    &&& !b.dirty ==> a.stitched@ == b.stitched@ && !a.dirty
                },
        decreases n - j,
    {
        proof {
            lemma_neighbors_same(before, chunks@, chunks@[j as int].coords, extent as int);
        }
        if chunks[j].dirty {
            let coords = chunks[j].coords;
            let adj = get_connected_chunks(&coords, chunks, extent);
            proof {
                lemma_neighbors_wf(before, coords, extent as int);
            }
            let ring = {
                let mut st = Stitcher::init(world_seed, schematic, coords, &chunks[j].tiles, &adj);
                st.stitch()
            };
            let complete = adj.is_complete();
            let tiles = copy_cells(&chunks[j].tiles);
            chunks.set(j, Chunk { coords, tiles, stitched: ring, dirty: !complete });
        }
        j = j + 1;
    }
    proof {
        lemma_neighbors_same(before, chunks@, ChunkCoords(0, 0), extent as int);
    }
}

/// The coordinates of `in_range`, in order, that the store `held` lacks,
/// each taken once.
pub open spec fn missing(in_range: Seq<ChunkCoords>, held: Seq<Chunk>) -> Seq<ChunkCoords>
    decreases in_range.len(),
{
    if in_range.len() == 0 {
        Seq::empty()
    } else {
        let m = missing(in_range.drop_last(), held);
        let c = in_range.last();
        if holds(held, c) || m.contains(c) {
            m
        } else {
            m.push(c)
        }
    }
}

/// Whether `ch` is the freshly generated chunk at `c`.
pub open spec fn is_spawned(ch: Chunk, world_seed: u64, schematic: SchematicAsset, c: ChunkCoords) -> bool {
    &&& ch.coords == c
    &&& ch.tiles@ == generated(schematic, world_seed, c)
    &&& ch.stitched@ == Seq::new(RING_CELLS as nat, |i: int| None::<u8>)
    &&& ch.dirty
}

/// Generates a chunk for every coordinate of `in_range` that the store does
/// not hold yet, appending them in order, and returns their coordinates. A
/// coordinate already held is never generated again.
pub fn create_chunks(
    world_seed: u64,
    schematic: &SchematicAsset,
    in_range: &Vec<ChunkCoords>,
    chunks: &mut Vec<Chunk>,
) -> (created: Vec<ChunkCoords>)
    requires
        schematic.wf(),
        store_wf(old(chunks)@),
    ensures
        created@ == missing(in_range@, old(chunks)@),
        store_wf(final(chunks)@),
        final(chunks)@.len() == old(chunks)@.len() + created@.len(),
        final(chunks)@.subrange(0, old(chunks)@.len() as int) == old(chunks)@,
        forall|k: int|
            0 <= k < created@.len() ==> is_spawned(
                #[trigger] final(chunks)@[old(chunks)@.len() + k],
                world_seed,
                *schematic,
                created@[k],
            ),
{
    let ghost before = chunks@;
    let ghost b = before.len();
    let mut created: Vec<ChunkCoords> = Vec::new();
    let mut i: usize = 0;
    while i < in_range.len()
        invariant
            0 <= i <= in_range@.len(),
            schematic.wf(),
            b == before.len(),
            created@ == missing(in_range@.subrange(0, i as int), before),
            store_wf(chunks@),
            chunks@.len() == b + created@.len(),
            chunks@.subrange(0, b as int) == before,
            forall|k: int|
                0 <= k < created@.len() ==> is_spawned(
                    #[trigger] chunks@[b + k],
                    world_seed,
                    *schematic,
                    created@[k],
                ),
        decreases in_range@.len() - i,
    {
        let c = in_range[i];
        proof {
            assert(in_range@.subrange(0, i + 1).drop_last() =~= in_range@.subrange(0, i as int));
            assert forall|x: ChunkCoords| holds(chunks@, x) == (holds(before, x) || created@.contains(x)) by {
                if holds(chunks@, x) {
                    let j = choose|j: int| 0 <= j < chunks@.len() && (#[trigger] chunks@[j]).coords == x;
                    if j < b {
                        assert(chunks@.subrange(0, b as int)[j] == chunks@[j]);
                    } else {
                        assert(is_spawned(chunks@[b + (j - b)], world_seed, *schematic, created@[j - b]));
                    }
                }
                if holds(before, x) {
                    let j = choose|j: int| 0 <= j < before.len() && (#[trigger] before[j]).coords == x;
                    assert(chunks@.subrange(0, b as int)[j] == chunks@[j]);
                }
                if created@.contains(x) {
                    let k = choose|k: int| 0 <= k < created@.len() && created@[k] == x;
                    assert(is_spawned(chunks@[b + k], world_seed, *schematic, created@[k]));
                }
            }
        }
        assert(holds(chunks@, c) == (holds(before, c) || created@.contains(c)));
        assert(in_range@.subrange(0, i + 1).last() == c);
        match find_chunk(chunks, &c) {
            Some(_) => {},
            None => {
                let ch = spawn_chunk(world_seed, schematic, c);
                proof {
                    crate::wfc_laws::lemma_interior_complete(*schematic, world_seed, c);
                }
                let ghost prev = chunks@;
                chunks.push(ch);
                created.push(c);
                proof {
                    assert(chunks@.subrange(0, b as int) =~= prev.subrange(0, b as int));
                    assert forall|k: int| 0 <= k < created@.len() implies is_spawned(
                        #[trigger] chunks@[b + k],
                        world_seed,
                        *schematic,
                        created@[k],
                    ) by {
                        if k < created@.len() - 1 {
                            assert(chunks@[b + k] == prev[b + k]);
                        }
                    }
                    assert forall|p: int, q: int|
                        0 <= p < chunks@.len() && 0 <= q < chunks@.len() && p != q implies (#[trigger] chunks@[p]).coords
                            != (#[trigger] chunks@[q]).coords by {
                        if p == prev.len() {
                            assert(prev[q] == chunks@[q]);
                        } else if q == prev.len() {
                            assert(prev[p] == chunks@[p]);
                        } else {
                            assert(prev[p] == chunks@[p] && prev[q] == chunks@[q]);
                        }
                    }
                }
            },
        }
        i = i + 1;
    }
    assert(in_range@.subrange(0, in_range@.len() as int) =~= in_range@);
    created
}

/// Whether chunk `ch` lies in the visible set `in_range`.
pub open spec fn in_view(in_range: Seq<ChunkCoords>) -> spec_fn(Chunk) -> bool {
    |ch: Chunk| in_range.contains(ch.coords)
}

/// Whether chunk `ch` lies outside the visible set `in_range`.
pub open spec fn out_of_view(in_range: Seq<ChunkCoords>) -> spec_fn(Chunk) -> bool {
    |ch: Chunk| !in_range.contains(ch.coords)
}

/// The coordinates of a sequence of chunks.
pub open spec fn coords_of(chunks: Seq<Chunk>) -> Seq<ChunkCoords> {
    chunks.map_values(|ch: Chunk| ch.coords)
}

/// Whether `c` occurs in `in_range`.
pub fn in_range_contains(in_range: &Vec<ChunkCoords>, c: &ChunkCoords) -> (r: bool)
    ensures
        r == in_range@.contains(*c),
{
    let mut i: usize = 0;
    while i < in_range.len()
        invariant
            0 <= i <= in_range@.len(),
            forall|k: int| 0 <= k < i ==> in_range@[k] != *c,
        decreases in_range@.len() - i,
    {
        if in_range[i] == *c {
            assert(in_range@[i as int] == *c);
            return true;
        }
        i = i + 1;
    }
    false
}

/// Drops every chunk whose coordinates left the visible set, keeping the
/// others in order, and returns the dropped coordinates.
pub fn remove_stale_chunks(in_range: &Vec<ChunkCoords>, chunks: &mut Vec<Chunk>) -> (removed: Vec<
    ChunkCoords,
>)
    requires
        store_wf(old(chunks)@),
    ensures
        final(chunks)@ == old(chunks)@.filter(in_view(in_range@)),
        removed@ == coords_of(old(chunks)@.filter(out_of_view(in_range@))),
        store_wf(final(chunks)@),
{
    let ghost before = chunks@;
    let total = chunks.len();
    let ghost n = before.len();
    let mut kept: Vec<Chunk> = Vec::new();
    let mut removed: Vec<ChunkCoords> = Vec::new();
    let mut i: usize = 0;
    while chunks.len() > 0
        invariant
            n == before.len(),
            n == total,
            store_wf(before),
            i + chunks@.len() == n,
            chunks@ == before.subrange(i as int, n as int),
            kept@ == before.subrange(0, i as int).filter(in_view(in_range@)),
            removed@ == coords_of(before.subrange(0, i as int).filter(out_of_view(in_range@))),
            store_wf(kept@),
            forall|k: int| 0 <= k < kept@.len() ==> exists|m: int| 0 <= m < i && before[m] == #[trigger] kept@[k],
        decreases chunks@.len(),
    {
        let ch = chunks.remove(0);
        assert(ch == before[i as int]);
        proof {
            assert(before.subrange(0, i + 1) =~= before.subrange(0, i as int).push(ch));
            before.subrange(0, i as int).lemma_filter_push(ch, in_view(in_range@));
            before.subrange(0, i as int).lemma_filter_push(ch, out_of_view(in_range@));
        }
        let ghost prev_kept = kept@;
        let ghost prev_removed = before.subrange(0, i as int).filter(out_of_view(in_range@));
        if in_range_contains(in_range, &ch.coords) {
            kept.push(ch);
            proof {
                assert forall|p: int, q: int|
                    0 <= p < kept@.len() && 0 <= q < kept@.len() && p != q implies (#[trigger] kept@[p]).coords
                        != (#[trigger] kept@[q]).coords by {
                    if p == prev_kept.len() {
                        assert(prev_kept[q] == kept@[q]);
                        let m = choose|m: int| 0 <= m < i && before[m] == #[trigger] prev_kept[q];
                    } else if q == prev_kept.len() {
                        assert(prev_kept[p] == kept@[p]);
                        let m = choose|m: int| 0 <= m < i && before[m] == #[trigger] prev_kept[p];
                    } else {
                        assert(prev_kept[p] == kept@[p] && prev_kept[q] == kept@[q]);
                    }
                }
                assert forall|k: int| 0 <= k < kept@.len() implies exists|m: int| 0 <= m < i + 1 && before[m] == #[trigger] kept@[k] by {
                    if k < prev_kept.len() {
                        assert(prev_kept[k] == kept@[k]);
                        let m = choose|m: int| 0 <= m < i && before[m] == #[trigger] prev_kept[k];
                        assert(before[m] == kept@[k]);
                    } else {
                        assert(before[i as int] == kept@[k]);
                    }
                }
                assert(coords_of(before.subrange(0, i + 1).filter(out_of_view(in_range@))) =~= coords_of(prev_removed));
            }
        } else {
            let c = ch.coords;
            removed.push(c);
            proof {
                assert(coords_of(before.subrange(0, i + 1).filter(out_of_view(in_range@))) =~= coords_of(prev_removed).push(c));
                assert forall|k: int| 0 <= k < kept@.len() implies exists|m: int| 0 <= m < i + 1 && before[m] == #[trigger] kept@[k] by {
                    let m = choose|m: int| 0 <= m < i && before[m] == #[trigger] kept@[k];
                }
            }
        }
        i = i + 1;
        assert(chunks@ =~= before.subrange(i as int, n as int));
    }
    assert(before.subrange(0, n as int) =~= before);
    *chunks = kept;
    removed
}

/// The interiors around `c` once the chunks at `created` have been generated
/// beside the store `held`: a neighbour is a chunk `held` already has, or a
/// newly generated one.
pub open spec fn neighbors_after(
    held: Seq<Chunk>,
    created: Seq<ChunkCoords>,
    world_seed: u64,
    schematic: SchematicAsset,
    c: ChunkCoords,
    extent: int,
) -> Seq<Option<Seq<Option<u8>>>> {
    Seq::new(
        4,
        |s: int|
            match neighbor_coords(c, extent, s) {
                Some(n) => if holds(held, n) {
                    Some(grid_at(held, n))
                } else if created.contains(n) {
                    Some(generated(schematic, world_seed, n))
                } else {
                    None
                },
                None => None,
            },
    )
}

/// Whether chunk `ch` is what one tick leaves of a chunk: generated this tick
/// (its coordinates are in `created`) or kept from `held`, and stitched
/// against the store as it stood after generation if it was dirty.
pub open spec fn ticked(
    ch: Chunk,
    held: Seq<Chunk>,
    created: Seq<ChunkCoords>,
    world_seed: u64,
    schematic: SchematicAsset,
    extent: int,
) -> bool {
    let adj = neighbors_after(held, created, world_seed, schematic, ch.coords, extent);
    let restitched = ch.stitched@ == stitched(
        schematic,
        chunk_hash(world_seed, ch.coords),
        ch.tiles@,
        adj,
    ) && ch.dirty == !neighbors_complete(adj);
    if created.contains(ch.coords) {
        ch.tiles@ == generated(schematic, world_seed, ch.coords) && restitched
    } else {
        exists|j: int|
            0 <= j < held.len() && (#[trigger] held[j]).coords == ch.coords && held[j].tiles@
                == ch.tiles@ && (held[j].dirty ==> restitched) && (!held[j].dirty
                ==> ch.stitched@ == held[j].stitched@ && !ch.dirty)
    }
}

proof fn lemma_neighbors_after(
    before: Seq<Chunk>,
    mid: Seq<Chunk>,
    created: Seq<ChunkCoords>,
    world_seed: u64,
    schematic: SchematicAsset,
    c: ChunkCoords,
    extent: int,
)
    requires
        store_wf(before),
        coords_unique(mid),
        mid.len() == before.len() + created.len(),
        mid.subrange(0, before.len() as int) == before,
        forall|k: int|
            0 <= k < created.len() ==> is_spawned(
                #[trigger] mid[before.len() + k],
                world_seed,
                schematic,
                created[k],
            ),
        forall|x: ChunkCoords| #[trigger] created.contains(x) ==> !holds(before, x),
    ensures
        neighbors_in(mid, c, extent) == neighbors_after(before, created, world_seed, schematic, c, extent),
{
    let b = before.len();
    assert forall|s: int| 0 <= s < 4 implies #[trigger] neighbors_in(mid, c, extent)[s]
        == neighbors_after(before, created, world_seed, schematic, c, extent)[s] by {
        if let Some(n) = neighbor_coords(c, extent, s) {
            if holds(before, n) {
                let j = choose|j: int| 0 <= j < before.len() && (#[trigger] before[j]).coords == n;
                assert(mid.subrange(0, b as int)[j] == mid[j]);
                lemma_grid_at(before, n, j);
                lemma_grid_at(mid, n, j);
            } else if created.contains(n) {
                let k = choose|k: int| 0 <= k < created.len() && created[k] == n;
                assert(is_spawned(mid[b + k], world_seed, schematic, created[k]));
                lemma_grid_at(mid, n, b + k);
            } else if holds(mid, n) {
                let j = choose|j: int| 0 <= j < mid.len() && (#[trigger] mid[j]).coords == n;
                if j < b {
                    assert(mid.subrange(0, b as int)[j] == mid[j]);
                    assert(before[j].coords == n);
                } else {
                    assert(is_spawned(mid[b + (j - b)], world_seed, schematic, created[j - b]));
                    assert(created.contains(n));
                }
            }
        }
    }
    assert(neighbors_in(mid, c, extent) =~= neighbors_after(before, created, world_seed, schematic, c, extent));
}

/// What one tick changed in the store.
pub struct TickReport {
    pub created: Vec<ChunkCoords>,
    pub removed: Vec<ChunkCoords>,
}

/// The configuration a tick runs under.
pub struct WorldConfig {
    pub seed: u64,
    pub tile_size: i64,
    pub render_distance: i64,
}

proof fn lemma_missing(s: Seq<ChunkCoords>, held: Seq<Chunk>)
    ensures
        forall|c: ChunkCoords| #[trigger] missing(s, held).contains(c) ==> s.contains(c) && !holds(held, c),
        forall|c: ChunkCoords| #[trigger] s.contains(c) ==> holds(held, c) || missing(s, held).contains(c),
    decreases s.len(),
{
    if s.len() > 0 {
        let p = s.drop_last();
        lemma_missing(p, held);
        let m = missing(p, held);
        assert forall|c: ChunkCoords| #[trigger] missing(s, held).contains(c) implies s.contains(c) && !holds(held, c) by {
            if m.contains(c) {
                let k = choose|k: int| 0 <= k < p.len() && p[k] == c;
                assert(s[k] == c);
            } else {
                assert(c == s.last());
                assert(s[s.len() - 1] == c);
            }
        }
        assert forall|c: ChunkCoords| #[trigger] s.contains(c) implies holds(held, c) || missing(s, held).contains(c) by {
            let k = choose|k: int| 0 <= k < s.len() && s[k] == c;
            if k < s.len() - 1 {
                assert(p[k] == c);
                assert(p.contains(c));
                if m.contains(c) {
                    let q = choose|q: int| 0 <= q < m.len() && m[q] == c;
                    if !(holds(held, s.last()) || m.contains(s.last())) {
                        assert(m.push(s.last())[q] == c);
                    }
                }
            } else {
                if !(holds(held, c) || m.contains(c)) {
                    assert(m.push(c)[m.len() as int] == c);
                }
            }
        }
    }
}

/// One tick of chunk streaming around the focus position `focus`: generate
/// the visible chunks the store lacks, stitch every dirty chunk, then drop the
/// chunks that left the visible set.
pub fn world_gen_system(
    config: &WorldConfig,
    schematic: &SchematicAsset,
    focus: (i64, i64),
    chunks: &mut Vec<Chunk>,
) -> (r: TickReport)
    requires
        schematic.wf(),
        store_wf(old(chunks)@),
        0 < config.tile_size <= i64::MAX / 16,
        view_fits(focus, chunk_extent_of(config.tile_size as int), config.render_distance as int),
    ensures
        ({
            let vis = visible_square(
                chunk_coordinate_of_spec(focus, chunk_extent_of(config.tile_size as int)),
                chunk_extent_of(config.tile_size as int),
                config.render_distance as int,
            );
            &&& r.created@ == missing(vis, old(chunks)@)
            &&& store_wf(final(chunks)@)
            &&& forall|j: int| 0 <= j < final(chunks)@.len() ==> vis.contains(#[trigger] final(chunks)@[j].coords)
            &&& forall|c: ChunkCoords| #[trigger] vis.contains(c) ==> holds(final(chunks)@, c)
            &&& forall|j: int|
                0 <= j < old(chunks)@.len() && vis.contains(#[trigger] old(chunks)@[j].coords) ==> exists|k: int|
                    0 <= k < final(chunks)@.len() && (#[trigger] final(chunks)@[k]).coords == old(chunks)@[j].coords
                        && final(chunks)@[k].tiles@ == old(chunks)@[j].tiles@
            &&& forall|c: ChunkCoords| #[trigger] r.removed@.contains(c) <==> holds(old(chunks)@, c) && !vis.contains(c)
            &&& forall|k: int|
                0 <= k < final(chunks)@.len() ==> ticked(
                    #[trigger] final(chunks)@[k],
                    old(chunks)@,
                    r.created@,
                    config.seed,
                    *schematic,
                    chunk_extent_of(config.tile_size as int),
                )
        }),
{
    let extent = chunk_extent(config.tile_size);
    let visible = visible_coordinates(focus, extent, config.render_distance);
    let ghost vis = visible@;
    let ghost before = chunks@;
    let created = create_chunks(config.seed, schematic, &visible, chunks);
    let ghost mid1 = chunks@;
    gen_chunk_stitches(config.seed, schematic, chunks, extent);
    let ghost mid2 = chunks@;
    let removed = remove_stale_chunks(&visible, chunks);
    proof {
        broadcast use vstd::seq_lib::group_filter_ensures;

        lemma_missing(vis, before);
        let fin = chunks@;
        let b = before.len();
        assert forall|j: int| 0 <= j < mid2.len() implies (#[trigger] mid2[j]).coords == mid1[j].coords
            && mid2[j].tiles@ == mid1[j].tiles@ by {}
        assert forall|j: int| 0 <= j < b implies #[trigger] mid1[j] == before[j] by {
            assert(mid1.subrange(0, b as int)[j] == mid1[j]);
        }
        // holds(mid2, c) exactly for held-before or created coordinates
        assert forall|c: ChunkCoords| holds(mid2, c) <==> (holds(before, c) || created@.contains(c)) by {
            if holds(mid2, c) {
                let j = choose|j: int| 0 <= j < mid2.len() && (#[trigger] mid2[j]).coords == c;
                if j >= b {
                    assert(is_spawned(mid1[b + (j - b)], config.seed, *schematic, created@[j - b]));
                } else {
                    assert(before[j].coords == c);
                }
            }
            if holds(before, c) {
                let j = choose|j: int| 0 <= j < before.len() && (#[trigger] before[j]).coords == c;
                assert(mid2[j].coords == c);
            }
            if created@.contains(c) {
                let k = choose|k: int| 0 <= k < created@.len() && created@[k] == c;
                assert(is_spawned(mid1[b + k], config.seed, *schematic, created@[k]));
                assert(mid2[b + k].coords == c);
            }
        }
        assert forall|j: int| 0 <= j < fin.len() implies vis.contains(#[trigger] fin[j].coords) by {
            assert(in_view(vis)(fin[j]));
        }
        assert forall|c: ChunkCoords| #[trigger] vis.contains(c) implies holds(fin, c) by {
            assert(holds(mid2, c));
            let j = choose|j: int| 0 <= j < mid2.len() && (#[trigger] mid2[j]).coords == c;
            assert(in_view(vis)(mid2[j]));
            assert(fin.contains(mid2[j]));
            let k = choose|k: int| 0 <= k < fin.len() && fin[k] == mid2[j];
            assert(fin[k].coords == c);
        }
        assert forall|j: int| 0 <= j < before.len() && vis.contains(#[trigger] before[j].coords) implies exists|k: int|
            0 <= k < fin.len() && (#[trigger] fin[k]).coords == before[j].coords && fin[k].tiles@ == before[j].tiles@ by {
            assert(in_view(vis)(mid2[j]));
            assert(fin.contains(mid2[j]));
            let k = choose|k: int| 0 <= k < fin.len() && fin[k] == mid2[j];
            assert(fin[k].coords == before[j].coords);
        }
        assert forall|x: ChunkCoords| #[trigger] created@.contains(x) implies !holds(before, x) by {}
        let e = extent as int;
        assert forall|k: int| 0 <= k < fin.len() implies ticked(
            #[trigger] fin[k],
            before,
            created@,
            config.seed,
            *schematic,
            e,
        ) by {
            assert(fin.contains(fin[k]));
            mid2.lemma_filter_contains_rev(in_view(vis), fin[k]);
            let m = choose|m: int| 0 <= m < mid2.len() && mid2[m] == fin[k];
            let c = mid2[m].coords;
            lemma_neighbors_after(before, mid1, created@, config.seed, *schematic, c, e);
            if m >= b {
                assert(is_spawned(mid1[b + (m - b)], config.seed, *schematic, created@[m - b]));
                assert(created@.contains(c));
            } else {
                assert(before[m].coords == c);
                assert(holds(before, c));
                assert(!created@.contains(c));
                assert(mid1[m] == before[m]);
            }
        }
        let gone = mid2.filter(out_of_view(vis));
        assert forall|c: ChunkCoords| #[trigger] removed@.contains(c) <==> holds(before, c) && !vis.contains(c) by {
            if removed@.contains(c) {
                let q = choose|q: int| 0 <= q < removed@.len() && removed@[q] == c;
                assert(gone[q].coords == c);
                assert(gone.contains(gone[q]));
                mid2.lemma_filter_contains_rev(out_of_view(vis), gone[q]);
                let j = choose|j: int| 0 <= j < mid2.len() && mid2[j] == gone[q];
                assert(mid2[j].coords == c);
                assert(holds(mid2, c));
                assert(!vis.contains(c));
            }
            if holds(before, c) && !vis.contains(c) {
                let j = choose|j: int| 0 <= j < before.len() && (#[trigger] before[j]).coords == c;
                assert(mid2[j].coords == c);
                assert(out_of_view(vis)(mid2[j]));
                assert(gone.contains(mid2[j]));
                let q = choose|q: int| 0 <= q < gone.len() && gone[q] == mid2[j];
                assert(removed@[q] == c);
            }
        }
    }
    TickReport { created, removed }
}

/// A materialized tile: the tile type a cell is drawn with.
#[derive(Clone, Copy, Debug, PartialEq, Eq, Structural)]
pub struct Tile {
    pub texture_id: u8,
}

/// The tiles to draw for a grid of cells: unresolved cells show `not_found`.
pub fn resolve_tiles(cells: &Vec<Option<u8>>, not_found: u8) -> (r: Vec<Tile>)
    ensures
        r@.len() == cells@.len(),
        forall|i: int|
            0 <= i < cells@.len() ==> (#[trigger] r@[i]).texture_id == match cells@[i] {
                Some(t) => t,
                None => not_found,
            },
{
    let mut out: Vec<Tile> = Vec::new();
    let mut i: usize = 0;
    while i < cells.len()
        invariant
            0 <= i <= cells@.len(),
            out@.len() == i,
            forall|k: int|
                0 <= k < i ==> (#[trigger] out@[k]).texture_id == match cells@[k] {
                    Some(t) => t,
                    None => not_found,
                },
        decreases cells@.len() - i,
    {
        let id = match cells[i] {
            Some(t) => t,
            None => not_found,
        };
        out.push(Tile { texture_id: id });
        i = i + 1;
    }
    out
}

/// World position (lower-left corner) of interior cell `(x, y)` of the chunk
/// at `coords`, for tiles of `tile_size` world units.
pub open spec fn cell_position(coords: ChunkCoords, x: int, y: int, tile_size: int) -> (int, int) {
    (coords.0 + x * tile_size, coords.1 + y * tile_size)
}

/// World position (lower-left corner) of ring cell `i` of the chunk at
/// `coords`: the ring runs one tile outside the interior on every side.
pub open spec fn perimeter_position(coords: ChunkCoords, i: int, tile_size: int) -> (int, int) {
    let n = crate::wfc::CHUNK_TILE_LENGTH as int;
    let s = crate::stitcher::side_of(i);
    let k = crate::stitcher::rank_of(i);
    if s == 0 {
        cell_position(coords, k - 1, n, tile_size)
    } else if s == 1 {
        cell_position(coords, n, n - k, tile_size)
    } else if s == 2 {
        cell_position(coords, n - k, -1, tile_size)
    } else {
        cell_position(coords, -1, k - 1, tile_size)
    }
}

/// World position of ring cell `i` of the chunk at `coords`.
pub fn get_perimeter_world_coord(coords: &ChunkCoords, i: usize, tile_size: i64) -> (r: (i64, i64))
    requires
        i < RING_CELLS,
        0 < tile_size <= 0x1_0000_0000,
        -0x4000_0000_0000_0000 <= coords.0 <= 0x4000_0000_0000_0000,
        -0x4000_0000_0000_0000 <= coords.1 <= 0x4000_0000_0000_0000,
    ensures
        r.0 as int == perimeter_position(*coords, i as int, tile_size as int).0,
        r.1 as int == perimeter_position(*coords, i as int, tile_size as int).1,
{
    let n = crate::wfc::CHUNK_TILE_LENGTH as i64;
    let s = i / crate::stitcher::SIDE_CELLS;
    let k = (i % crate::stitcher::SIDE_CELLS) as i64;
    let (x, y): (i64, i64) = if s == 0 {
        (k - 1, n)
    } else if s == 1 {
        (n, n - k)
    } else if s == 2 {
        (n - k, -1)
    } else {
        (-1, k - 1)
    };
    assert(-1 <= x <= 8 && -1 <= y <= 8);
    assert(-0x1_0000_0000 <= x * tile_size <= 8 * 0x1_0000_0000) by (nonlinear_arith)
        requires
            -1 <= x <= 8,
            0 < tile_size <= 0x1_0000_0000,
    ;
    assert(-0x1_0000_0000 <= y * tile_size <= 8 * 0x1_0000_0000) by (nonlinear_arith)
        requires
            -1 <= y <= 8,
            0 < tile_size <= 0x1_0000_0000,
    ;
    (coords.0 + x * tile_size, coords.1 + y * tile_size)
}

} // verus!

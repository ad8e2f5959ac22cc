use vstd::prelude::*;

use crate::components::Direction;
use crate::coords::ChunkCoords;
use crate::entropy::{
    chunk_hash, domains_view, find_lowest_entropy, get_hash, lemma_open_count_update,
    lowest_entropy, open_count, pick, pick_from, restrict,
};
use crate::schematic::SchematicAsset;

verus! {

/// Side length, in tiles, of a chunk's interior grid.
pub const CHUNK_TILE_LENGTH: usize = 8;

/// Number of interior cells of a chunk. Cell `(x, y)` (column `x` counted
/// eastwards, row `y` northwards) has index `x * CHUNK_TILE_LENGTH + y`.
pub const CHUNK_CELLS: usize = CHUNK_TILE_LENGTH * CHUNK_TILE_LENGTH;

/// `dom` restricted by the tile at cell `j`, if that cell is resolved: only
/// identifiers allowed on side `d` of that tile remain.
pub open spec fn by_tile(
    schematic: SchematicAsset,
    tiles: Seq<Option<u8>>,
    dom: Seq<u8>,
    j: int,
    d: Direction,
) -> Seq<u8> {
    match tiles[j] {
        Some(t) => dom.filter(schematic.allowed_by(t, d)),
        None => dom,
    }
}

/// The domain of interior cell `i` narrowed by its resolved 4-neighbours:
/// the west neighbour through its east list, the south neighbour through its
/// north list, the east neighbour through its west list and the north
/// neighbour through its south list.
pub open spec fn refine_cell(
    schematic: SchematicAsset,
    tiles: Seq<Option<u8>>,
    dom: Seq<u8>,
    i: int,
) -> Seq<u8> {
    let n = CHUNK_TILE_LENGTH as int;
    let x = i / n;
    let y = i % n;
    let d1 = if x > 0 {
        by_tile(schematic, tiles, dom, i - n, Direction::Right)
    } else {
        dom
    };
    let d2 = if y > 0 {
        by_tile(schematic, tiles, d1, i - 1, Direction::Up)
    } else {
        d1
    };
    let d3 = if x + 1 < n {
        by_tile(schematic, tiles, d2, i + n, Direction::Left)
    } else {
        d2
    };
    if y + 1 < n {
        by_tile(schematic, tiles, d3, i + 1, Direction::Down)
    } else {
        d3
    }
}

/// One propagation pass: resolved cells get an empty domain, every other
/// cell's domain is narrowed by its resolved neighbours.
pub open spec fn propagate(
    schematic: SchematicAsset,
    tiles: Seq<Option<u8>>,
    doms: Seq<Seq<u8>>,
) -> Seq<Seq<u8>> {
    Seq::new(
        doms.len(),
        |i: int|
            if tiles[i] is Some {
                Seq::empty()
            } else {
                refine_cell(schematic, tiles, doms[i], i)
            },
    )
}

/// The solver loop from a given state: propagate, select the lowest-entropy
/// cell, collapse it with a draw seeded by `hash`, repeat until no domain is
/// left nonempty. `fuel` bounds the number of collapses.
pub open spec fn collapse_from(
    schematic: SchematicAsset,
    hash: u64,
    tiles: Seq<Option<u8>>,
    doms: Seq<Seq<u8>>,
    fuel: nat,
) -> Seq<Option<u8>>
    decreases fuel,
{
    let d = propagate(schematic, tiles, doms);
    match lowest_entropy(d) {
        Some(i) => if fuel > 0 {
            collapse_from(
                schematic,
                hash,
                tiles.update(i, Some(pick(d[i], hash))),
                d,
                (fuel - 1) as nat,
            )
        } else {
            tiles
        },
        None => tiles,
    }
}

/// The grid before the loop: the origin cell drawn from all identifiers.
pub open spec fn seeded_tiles(schematic: SchematicAsset, hash: u64) -> Seq<Option<u8>> {
    Seq::new(
        CHUNK_CELLS as nat,
        |i: int|
            if i == 0 {
                Some(pick(schematic.ids(), hash))
            } else {
                None
            },
    )
}

/// Every cell may still hold any identifier.
pub open spec fn full_domains(schematic: SchematicAsset) -> Seq<Seq<u8>> {
    Seq::new(CHUNK_CELLS as nat, |i: int| schematic.ids())
}

/// The interior grid the solver produces from chunk hash `hash`.
pub open spec fn solved(schematic: SchematicAsset, hash: u64) -> Seq<Option<u8>> {
    let t0 = seeded_tiles(schematic, hash);
    collapse_from(schematic, hash, t0, full_domains(schematic), open_count(t0))
}

/// The interior grid generated for the chunk at `coords` in the world with
/// seed `world_seed`. Cells left `None` ended in a contradiction.
pub open spec fn generated(
    schematic: SchematicAsset,
    world_seed: u64,
    coords: ChunkCoords,
) -> Seq<Option<u8>> {
    solved(schematic, chunk_hash(world_seed, coords))
}

/// The wave function collapse solver for one chunk's interior.
pub struct WaveFunctionCollapse<'a> {
    hash: u64,
    coords: ChunkCoords,
    schematic: &'a SchematicAsset,
    constraint_map: Vec<Vec<u8>>,
    tiles: Vec<Option<u8>>,
}

/// Copies the identifiers of `schematic`, in record order.
pub(crate) fn all_ids(schematic: &SchematicAsset) -> (r: Vec<u8>)
    ensures
        r@ == schematic.ids(),
{
    let mut out: Vec<u8> = Vec::new();
    let mut i: usize = 0;
    while i < schematic.tiles.len()
        invariant
            0 <= i <= schematic.tiles@.len(),
            out@ == schematic.ids().subrange(0, i as int),
        decreases schematic.tiles@.len() - i,
    {
        out.push(schematic.tiles[i].0);
        i = i + 1;
        assert(out@ =~= schematic.ids().subrange(0, i as int));
    }
    out
}

/// Copies a grid of cells.
pub fn copy_cells(cells: &Vec<Option<u8>>) -> (r: Vec<Option<u8>>)
    ensures
        r@ == cells@,
{
    let mut out: Vec<Option<u8>> = Vec::new();
    let mut i: usize = 0;
    while i < cells.len()
        invariant
            0 <= i <= cells@.len(),
            out@ == cells@.subrange(0, i as int),
        decreases cells@.len() - i,
    {
        out.push(cells[i]);
        i = i + 1;
        assert(out@ =~= cells@.subrange(0, i as int));
    }
    out
}

/// Narrows `dom` by the tile at cell `j`, if that cell is resolved.
pub(crate) fn narrow_by_tile(
    schematic: &SchematicAsset,
    tiles: &Vec<Option<u8>>,
    dom: Vec<u8>,
    j: usize,
    d: Direction,
) -> (r: Vec<u8>)
    requires
        SchematicAsset::keys_unique(schematic.tiles@),
        j < tiles@.len(),
    ensures
        r@ == by_tile(*schematic, tiles@, dom@, j as int, d),
{
    match tiles[j] {
        Some(t) => restrict(&dom, schematic, t, d),
        None => dom,
    }
}

/// The narrowed domain of cell `i`.
fn refine(schematic: &SchematicAsset, tiles: &Vec<Option<u8>>, dom: &Vec<u8>, i: usize) -> (r: Vec<u8>)
    requires
        SchematicAsset::keys_unique(schematic.tiles@),
        tiles@.len() == CHUNK_CELLS,
        i < CHUNK_CELLS,
    ensures
        r@ == refine_cell(*schematic, tiles@, dom@, i as int),
{
    let n = CHUNK_TILE_LENGTH;
    let x = i / n;
    let y = i % n;
    let mut cur = copy_domain(dom);
    if x > 0 {
        cur = narrow_by_tile(schematic, tiles, cur, i - n, Direction::Right);
    }
    if y > 0 {
        cur = narrow_by_tile(schematic, tiles, cur, i - 1, Direction::Up);
    }
    if x + 1 < n {
        cur = narrow_by_tile(schematic, tiles, cur, i + n, Direction::Left);
    }
    if y + 1 < n {
        cur = narrow_by_tile(schematic, tiles, cur, i + 1, Direction::Down);
    }
    cur
}

/// Copies a domain.
pub(crate) fn copy_domain(dom: &Vec<u8>) -> (r: Vec<u8>)
    ensures
        r@ == dom@,
{
    let mut out: Vec<u8> = Vec::new();
    let mut i: usize = 0;
    while i < dom.len()
        invariant
            0 <= i <= dom@.len(),
            out@ == dom@.subrange(0, i as int),
        decreases dom@.len() - i,
    {
        out.push(dom[i]);
        i = i + 1;
        assert(out@ =~= dom@.subrange(0, i as int));
    }
    out
}

impl<'a> WaveFunctionCollapse<'a> {
    /// The ruleset the solver works with.
    pub closed spec fn rules(&self) -> SchematicAsset {
        *self.schematic
    }

    /// The chunk hash that seeds every draw.
    pub closed spec fn hash_spec(&self) -> u64 {
        self.hash
    }

    /// The chunk the solver fills.
    pub closed spec fn coords_spec(&self) -> ChunkCoords {
        self.coords
    }

    /// The chunk the solver fills.
    pub fn coords(&self) -> (r: ChunkCoords)
        ensures
            r == self.coords_spec(),
    {
        self.coords
    }

    /// Sets up the solver for the chunk at `coords`.
    pub fn init(world_seed: u64, schematic: &'a SchematicAsset, coords: ChunkCoords) -> (r:
        WaveFunctionCollapse<'a>)
        ensures
            r.rules() == *schematic,
            r.hash_spec() == chunk_hash(world_seed, coords),
            r.coords_spec() == coords,
    {
        WaveFunctionCollapse {
            hash: get_hash(world_seed, &coords),
            coords: coords,
            schematic: schematic,
            constraint_map: Vec::new(),
            tiles: Vec::new(),
        }
    }

    /// Runs the solver and returns the interior grid, indexed as described at
    /// [`CHUNK_CELLS`]. Each run starts from the seeded state, so the result
    /// depends on the ruleset and the chunk hash alone.
    pub fn collapse(&mut self) -> (r: Vec<Option<u8>>)
        requires
            old(self).rules().wf(),
        ensures
            r@ == solved(old(self).rules(), old(self).hash_spec()),
            final(self).rules() == old(self).rules(),
            final(self).hash_spec() == old(self).hash_spec(),
            final(self).coords_spec() == old(self).coords_spec(),
    {
        let ghost sch = *self.schematic;
        let ghost h = self.hash;
        let ghost c0 = self.coords;
        let ids = all_ids(self.schematic);
        assert(ids@.len() > 0) by {
            assert(sch.has_id(sch.not_found));
        }
        let origin = pick_from(&ids, self.hash);
        let mut tiles: Vec<Option<u8>> = Vec::new();
        let mut doms: Vec<Vec<u8>> = Vec::new();
        let mut i: usize = 0;
        while i < CHUNK_CELLS
            invariant
                0 <= i <= CHUNK_CELLS,
                ids@ == sch.ids(),
                origin == pick(sch.ids(), h),
                tiles@ == seeded_tiles(sch, h).subrange(0, i as int),
                doms@.len() == i,
                forall|j: int| 0 <= j < i ==> (#[trigger] doms@[j])@ == sch.ids(),
            decreases CHUNK_CELLS - i,
        {
            if i == 0 {
                tiles.push(Some(origin));
            } else {
                tiles.push(None);
            }
            doms.push(copy_domain(&ids));
            i = i + 1;
            assert(tiles@ =~= seeded_tiles(sch, h).subrange(0, i as int));
        }
        assert(tiles@ =~= seeded_tiles(sch, h));
        assert(domains_view(doms@) =~= full_domains(sch));
        self.tiles = tiles;
        self.constraint_map = doms;
        loop
            invariant
                sch.wf(),
                *self.schematic == sch,
                self.hash == h,
                self.coords == c0,
                self.tiles@.len() == CHUNK_CELLS,
                self.constraint_map@.len() == CHUNK_CELLS,
                collapse_from(
                    sch,
                    h,
                    self.tiles@,
                    domains_view(self.constraint_map@),
                    open_count(self.tiles@),
                ) == solved(sch, h),
            ensures
                self.tiles@ == solved(sch, h),
                *self.schematic == sch,
                self.hash == h,
                self.coords == c0,
            decreases open_count(self.tiles@),
        {
            let ghost t_before = self.tiles@;
            let ghost d_before = domains_view(self.constraint_map@);
            self.update_constraint_map();
            let ghost d = domains_view(self.constraint_map@);
            assert(d == propagate(sch, t_before, d_before));
            match find_lowest_entropy(&self.constraint_map) {
                None => {
                    break;
                },
                Some(next) => {
                    assert(d[next as int].len() > 0);
                    let tile = self.collapse_tile(next);
                    proof {
                        lemma_open_count_update(t_before, next as int, tile);
                    }
                    self.tiles.set(next, Some(tile));
                },
            }
        }
        copy_cells(&self.tiles)
    }

    /// One propagation pass over the interior.
    fn update_constraint_map(&mut self)
        requires
            old(self).rules().wf(),
            old(self).tiles@.len() == CHUNK_CELLS,
            old(self).constraint_map@.len() == CHUNK_CELLS,
        ensures
            domains_view(final(self).constraint_map@) == propagate(
                *old(self).schematic,
                old(self).tiles@,
                domains_view(old(self).constraint_map@),
            ),
            final(self).tiles@ == old(self).tiles@,
            final(self).constraint_map@.len() == CHUNK_CELLS,
            final(self).schematic == old(self).schematic,
            final(self).hash == old(self).hash,
            final(self).coords == old(self).coords,
    {
        let ghost d0 = domains_view(self.constraint_map@);
        let ghost target = propagate(*self.schematic, self.tiles@, d0);
        let mut i: usize = 0;
        while i < CHUNK_CELLS
            invariant
                0 <= i <= CHUNK_CELLS,
                self.schematic.wf(),
                self.tiles@.len() == CHUNK_CELLS,
                self.constraint_map@.len() == CHUNK_CELLS,
                target == propagate(*self.schematic, self.tiles@, d0),
                d0.len() == CHUNK_CELLS,
                forall|j: int| 0 <= j < i ==> #[trigger] self.constraint_map@[j]@ == target[j],
                forall|j: int| i <= j < CHUNK_CELLS ==> #[trigger] self.constraint_map@[j]@ == d0[j],
                self.tiles == old(self).tiles,
                self.schematic == old(self).schematic,
                self.hash == old(self).hash,
                self.coords == old(self).coords,
            decreases CHUNK_CELLS - i,
        {
            if self.tiles[i].is_some() {
                self.constraint_map.set(i, Vec::new());
            } else {
                let nd = refine(self.schematic, &self.tiles, &self.constraint_map[i], i);
                self.constraint_map.set(i, nd);
            }
            i = i + 1;
        }
        assert(domains_view(self.constraint_map@) =~= target);
    }

    /// Draws the identifier for cell `idx` from its current domain.
    fn collapse_tile(&self, idx: usize) -> (r: u8)
        requires
            idx < self.constraint_map@.len(),
            self.constraint_map@[idx as int]@.len() > 0,
        ensures
            r == pick(self.constraint_map@[idx as int]@, self.hash),
    {
        pick_from(&self.constraint_map[idx], self.hash)
    }
}

} // verus!

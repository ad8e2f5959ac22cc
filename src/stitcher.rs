use vstd::prelude::*;

use crate::components::{opposite, Direction};
use crate::coords::ChunkCoords;
use crate::entropy::{
    chunk_hash, domains_view, find_lowest_entropy, get_hash, lemma_open_count_update,
    lowest_entropy, open_count, pick, pick_from,
};
use crate::schematic::SchematicAsset;
use crate::wfc::{by_tile, narrow_by_tile, copy_domain, CHUNK_CELLS, CHUNK_TILE_LENGTH};

verus! {

/// Number of cells on one side of the perimeter ring, corner included.
pub const SIDE_CELLS: usize = CHUNK_TILE_LENGTH + 1;

/// Number of cells of the perimeter ring. Ring cell `i` lies on side
/// `i / SIDE_CELLS` (0 north, 1 east, 2 south, 3 west) at rank
/// `i % SIDE_CELLS`; rank 0 of each side is the corner it shares with the
/// previous side. Walking the ring by increasing index goes clockwise:
/// the north side west to east, the east side north to south, the south side
/// east to west and the west side south to north.
pub const RING_CELLS: usize = 4 * CHUNK_TILE_LENGTH + 4;

/// The interior grids of the four neighbouring chunks, where they exist.
pub struct Adjacencies {
    pub north: Option<Vec<Option<u8>>>,
    pub east: Option<Vec<Option<u8>>>,
    pub south: Option<Vec<Option<u8>>>,
    pub west: Option<Vec<Option<u8>>>,
}

impl Adjacencies {
    /// The neighbour on side `s` (0 north, 1 east, 2 south, 3 west).
    pub open spec fn side(&self, s: int) -> Option<Seq<Option<u8>>> {
        let g = if s == 0 {
            self.north
        } else if s == 1 {
            self.east
        } else if s == 2 {
            self.south
        } else {
            self.west
        };
        match g {
            Some(v) => Some(v@),
            None => None,
        }
    }

    /// The four neighbours, north, east, south and west.
    pub open spec fn view(&self) -> Seq<Option<Seq<Option<u8>>>> {
        seq![self.side(0), self.side(1), self.side(2), self.side(3)]
    }

    /// The neighbour on side `s`.
    pub fn get(&self, s: usize) -> (r: Option<&Vec<Option<u8>>>)
        requires
            s < 4,
        ensures
            match r {
                Some(g) => self.view()[s as int] == Some(g@),
                None => self.view()[s as int] is None,
            },
    {
        let g = if s == 0 {
            &self.north
        } else if s == 1 {
            &self.east
        } else if s == 2 {
            &self.south
        } else {
            &self.west
        };
        match g {
            Some(v) => Some(v),
            None => None,
        }
    }

    /// Whether all four neighbours exist.
    pub fn is_complete(&self) -> (r: bool)
        ensures
            r == neighbors_complete(self.view()),
    {
        let r = self.north.is_some() && self.east.is_some() && self.south.is_some()
            && self.west.is_some();
        if r {
            assert forall|s: int| 0 <= s < 4 implies (#[trigger] self.view()[s]) is Some by {}
        } else if self.north.is_none() {
            assert(self.view()[0] is None);
        } else if self.east.is_none() {
            assert(self.view()[1] is None);
        } else if self.south.is_none() {
            assert(self.view()[2] is None);
        } else {
            assert(self.view()[3] is None);
        }
        r
    }
}

/// Every neighbour that exists has a full interior grid.
pub open spec fn neighbors_wf(adj: Seq<Option<Seq<Option<u8>>>>) -> bool {
    &&& adj.len() == 4
    &&& forall|s: int| 0 <= s < 4 && (#[trigger] adj[s]) is Some ==> adj[s]->0.len() == CHUNK_CELLS
}

/// Whether all four neighbours exist.
pub open spec fn neighbors_complete(adj: Seq<Option<Seq<Option<u8>>>>) -> bool {
    forall|s: int| 0 <= s < 4 ==> (#[trigger] adj[s]) is Some
}

/// Outward direction of side `s`.
pub open spec fn side_dir(s: int) -> Direction {
    if s == 0 {
        Direction::Up
    } else if s == 1 {
        Direction::Right
    } else if s == 2 {
        Direction::Down
    } else {
        Direction::Left
    }
}

/// Direction in which the clockwise walk runs along side `s`.
pub open spec fn tangent(s: int) -> Direction {
    if s == 0 {
        Direction::Right
    } else if s == 1 {
        Direction::Down
    } else if s == 2 {
        Direction::Left
    } else {
        Direction::Up
    }
}

pub open spec fn side_of(i: int) -> int {
    i / (SIDE_CELLS as int)
}

pub open spec fn rank_of(i: int) -> int {
    i % (SIDE_CELLS as int)
}

/// The ring cell before `i`, wrapping around.
pub open spec fn prev_cell(i: int) -> int {
    if i == 0 {
        RING_CELLS - 1
    } else {
        i - 1
    }
}

/// The ring cell after `i`, wrapping around.
pub open spec fn next_cell(i: int) -> int {
    if i + 1 == RING_CELLS {
        0
    } else {
        i + 1
    }
}

/// The direction from the previous ring cell to cell `i`.
pub open spec fn step_dir(i: int) -> Direction {
    if rank_of(i) > 0 {
        tangent(side_of(i))
    } else {
        tangent((side_of(i) + 3) % 4)
    }
}

/// For a non-corner ring cell, the interior cell of its own chunk right
/// inside it.
pub open spec fn inner_index(i: int) -> int {
    let n = CHUNK_TILE_LENGTH as int;
    let s = side_of(i);
    let k = rank_of(i);
    if s == 0 {
        (k - 1) * n + n - 1
    } else if s == 1 {
        (n - 1) * n + n - k
    } else if s == 2 {
        (n - k) * n
    } else {
        k - 1
    }
}

/// For a non-corner ring cell, the interior cell of the neighbouring chunk on
/// its side right outside it.
pub open spec fn outer_index(i: int) -> int {
    let n = CHUNK_TILE_LENGTH as int;
    let s = side_of(i);
    let k = rank_of(i);
    if s == 0 {
        (k - 1) * n
    } else if s == 1 {
        n - k
    } else if s == 2 {
        (n - k) * n + n - 1
    } else {
        (n - 1) * n + k - 1
    }
}

/// Whether ring cell `i` takes part in stitching: the neighbour on its side
/// exists, or it is a corner and the neighbour on the previous side exists.
pub open spec fn ring_active(adj: Seq<Option<Seq<Option<u8>>>>, i: int) -> bool {
    adj[side_of(i)] is Some || (rank_of(i) == 0 && adj[(side_of(i) + 3) % 4] is Some)
}

/// The domain of ring cell `i` narrowed by every source: the own interior
/// tile inside it (through its outward list), the neighbour's tile outside it
/// (through its inward list), and the resolved ring cells before and after it.
pub open spec fn ring_refine(
    schematic: SchematicAsset,
    ring: Seq<Option<u8>>,
    dom: Seq<u8>,
    interior: Seq<Option<u8>>,
    adj: Seq<Option<Seq<Option<u8>>>>,
    i: int,
) -> Seq<u8> {
    let s = side_of(i);
    let d1 = if rank_of(i) > 0 {
        by_tile(schematic, interior, dom, inner_index(i), side_dir(s))
    } else {
        dom
    };
    let d2 = if rank_of(i) > 0 && adj[s] is Some {
        by_tile(schematic, adj[s]->0, d1, outer_index(i), opposite(side_dir(s)))
    } else {
        d1
    };
    let d3 = by_tile(schematic, ring, d2, prev_cell(i), step_dir(i));
    by_tile(schematic, ring, d3, next_cell(i), opposite(step_dir(next_cell(i))))
}

/// One propagation pass over the ring.
pub open spec fn ring_propagate(
    schematic: SchematicAsset,
    ring: Seq<Option<u8>>,
    doms: Seq<Seq<u8>>,
    interior: Seq<Option<u8>>,
    adj: Seq<Option<Seq<Option<u8>>>>,
) -> Seq<Seq<u8>> {
    Seq::new(
        doms.len(),
        |i: int|
            if ring[i] is Some {
                Seq::empty()
            } else {
                ring_refine(schematic, ring, doms[i], interior, adj, i)
            },
    )
}

/// The stitching loop from a given state; it mirrors the interior solver.
pub open spec fn stitch_from(
    schematic: SchematicAsset,
    hash: u64,
    interior: Seq<Option<u8>>,
    adj: Seq<Option<Seq<Option<u8>>>>,
    ring: Seq<Option<u8>>,
    doms: Seq<Seq<u8>>,
    fuel: nat,
) -> Seq<Option<u8>>
    decreases fuel,
{
    let d = ring_propagate(schematic, ring, doms, interior, adj);
    match lowest_entropy(d) {
        Some(i) => if fuel > 0 {
            stitch_from(
                schematic,
                hash,
                interior,
                adj,
                ring.update(i, Some(pick(d[i], hash))),
                d,
                (fuel - 1) as nat,
            )
        } else {
            ring
        },
        None => ring,
    }
}

/// Initial ring domains: every identifier on active cells, none elsewhere.
pub open spec fn ring_domains(schematic: SchematicAsset, adj: Seq<Option<Seq<Option<u8>>>>) -> Seq<Seq<u8>> {
    Seq::new(
        RING_CELLS as nat,
        |i: int|
            if ring_active(adj, i) {
                schematic.ids()
            } else {
                Seq::empty()
            },
    )
}

pub open spec fn empty_ring() -> Seq<Option<u8>> {
    Seq::new(RING_CELLS as nat, |i: int| None)
}

/// The perimeter ring stitched for a chunk with interior `interior` and
/// neighbours `adj`, every draw seeded with `hash`. Cells left `None` are
/// inactive or ended in a contradiction.
pub open spec fn stitched(
    schematic: SchematicAsset,
    hash: u64,
    interior: Seq<Option<u8>>,
    adj: Seq<Option<Seq<Option<u8>>>>,
) -> Seq<Option<u8>> {
    stitch_from(
        schematic,
        hash,
        interior,
        adj,
        empty_ring(),
        ring_domains(schematic, adj),
        open_count(empty_ring()),
    )
}

/// Resolves the perimeter ring of one chunk against its neighbours.
pub struct Stitcher<'a> {
    hash: u64,
    coords: ChunkCoords,
    schematic: &'a SchematicAsset,
    chunk: &'a Vec<Option<u8>>,
    adj: &'a Adjacencies,
    constraint_map: Vec<Vec<u8>>,
    tiles: Vec<Option<u8>>,
}

impl<'a> Stitcher<'a> {
    pub closed spec fn rules(&self) -> SchematicAsset {
        *self.schematic
    }

    pub closed spec fn hash_spec(&self) -> u64 {
        self.hash
    }

    pub closed spec fn interior(&self) -> Seq<Option<u8>> {
        self.chunk@
    }

    pub closed spec fn coords_spec(&self) -> ChunkCoords {
        self.coords
    }

    /// The chunk whose ring is stitched.
    pub fn coords(&self) -> (r: ChunkCoords)
        ensures
            r == self.coords_spec(),
    {
        self.coords
    }

    pub closed spec fn neighbors(&self) -> Seq<Option<Seq<Option<u8>>>> {
        self.adj.view()
    }

    /// Sets up stitching for the chunk at `coords` with interior `chunk`.
    /// Draws are seeded with the chunk hash, as in the interior solver.
    pub fn init(
        world_seed: u64,
        schematic: &'a SchematicAsset,
        coords: ChunkCoords,
        chunk: &'a Vec<Option<u8>>,
        adj: &'a Adjacencies,
    ) -> (r: Stitcher<'a>)
        ensures
            r.rules() == *schematic,
            r.hash_spec() == chunk_hash(world_seed, coords),
            r.interior() == chunk@,
            r.neighbors() == adj.view(),
            r.coords_spec() == coords,
    {
        Stitcher {
            hash: get_hash(world_seed, &coords),
            coords: coords,
            schematic: schematic,
            chunk: chunk,
            adj: adj,
            constraint_map: Vec::new(),
            tiles: Vec::new(),
        }
    }

    /// Runs the stitching loop and returns the ring, indexed as described at
    /// [`RING_CELLS`]. Each run starts from an empty ring.
    pub fn stitch(&mut self) -> (r: Vec<Option<u8>>)
        requires
            old(self).rules().wf(),
            old(self).interior().len() == CHUNK_CELLS,
            neighbors_wf(old(self).neighbors()),
        ensures
            r@ == stitched(
                old(self).rules(),
                old(self).hash_spec(),
                old(self).interior(),
                old(self).neighbors(),
            ),
    {
        let ghost sch = *self.schematic;
        let ghost h = self.hash;
        let ghost adj = self.adj.view();
        let ghost interior = self.chunk@;
        let ids = crate::wfc::all_ids(self.schematic);
        let mut tiles: Vec<Option<u8>> = Vec::new();
        let mut doms: Vec<Vec<u8>> = Vec::new();
        let mut i: usize = 0;
        while i < RING_CELLS
            invariant
                0 <= i <= RING_CELLS,
                ids@ == sch.ids(),
                self.adj.view() == adj,
                neighbors_wf(adj),
                tiles@ == empty_ring().subrange(0, i as int),
                doms@.len() == i,
                forall|j: int| 0 <= j < i ==> (#[trigger] doms@[j])@ == ring_domains(sch, adj)[j],
            decreases RING_CELLS - i,
        {
            tiles.push(None);
            if self.is_active(i) {
                doms.push(copy_domain(&ids));
            } else {
                doms.push(Vec::new());
            }
            i = i + 1;
            assert(tiles@ =~= empty_ring().subrange(0, i as int));
        }
        assert(tiles@ =~= empty_ring());
        assert(domains_view(doms@) =~= ring_domains(sch, adj));
        self.tiles = tiles;
        self.constraint_map = doms;
        loop
            invariant
                sch.wf(),
                *self.schematic == sch,
                self.adj.view() == adj,
                neighbors_wf(adj),
                self.chunk@ == interior,
                self.chunk@.len() == CHUNK_CELLS,
                self.hash == h,
                self.tiles@.len() == RING_CELLS,
                self.constraint_map@.len() == RING_CELLS,
                stitch_from(
                    sch,
                    h,
                    self.chunk@,
                    adj,
                    self.tiles@,
                    domains_view(self.constraint_map@),
                    open_count(self.tiles@),
                ) == stitched(sch, h, self.chunk@, adj),
            ensures
                self.tiles@ == stitched(sch, h, self.chunk@, adj),
            decreases open_count(self.tiles@),
        {
            let ghost t_before = self.tiles@;
            let ghost d_before = domains_view(self.constraint_map@);
            self.update_constraint_map();
            let ghost d = domains_view(self.constraint_map@);
            assert(d == ring_propagate(sch, t_before, d_before, self.chunk@, adj));
            match find_lowest_entropy(&self.constraint_map) {
                None => {
                    break;
                },
                Some(next) => {
                    let tile = pick_from(&self.constraint_map[next], self.hash);
                    proof {
                        lemma_open_count_update(t_before, next as int, tile);
                    }
                    self.tiles.set(next, Some(tile));
                },
            }
        }
        crate::wfc::copy_cells(&self.tiles)
    }

    /// Whether ring cell `i` takes part in stitching.
    fn is_active(&self, i: usize) -> (r: bool)
        requires
            i < RING_CELLS,
        ensures
            r == ring_active(self.adj.view(), i as int),
    {
        let s = i / SIDE_CELLS;
        let k = i % SIDE_CELLS;
        self.adj.get(s).is_some() || (k == 0 && self.adj.get((s + 3) % 4).is_some())
    }

    /// One propagation pass over the ring.
    fn update_constraint_map(&mut self)
        requires
            old(self).rules().wf(),
            old(self).chunk@.len() == CHUNK_CELLS,
            neighbors_wf(old(self).adj.view()),
            old(self).tiles@.len() == RING_CELLS,
            old(self).constraint_map@.len() == RING_CELLS,
        ensures
            domains_view(final(self).constraint_map@) == ring_propagate(
                *old(self).schematic,
                old(self).tiles@,
                domains_view(old(self).constraint_map@),
                old(self).chunk@,
                old(self).adj.view(),
            ),
            final(self).tiles@ == old(self).tiles@,
            final(self).constraint_map@.len() == RING_CELLS,
            final(self).schematic == old(self).schematic,
            final(self).chunk == old(self).chunk,
            final(self).adj == old(self).adj,
            final(self).hash == old(self).hash,
            final(self).coords == old(self).coords,
    {
        let ghost d0 = domains_view(self.constraint_map@);
        let ghost target = ring_propagate(*self.schematic, self.tiles@, d0, self.chunk@, self.adj.view());
        let mut i: usize = 0;
        while i < RING_CELLS
            invariant
                0 <= i <= RING_CELLS,
                self.schematic.wf(),
                self.chunk@.len() == CHUNK_CELLS,
                neighbors_wf(self.adj.view()),
                self.tiles@.len() == RING_CELLS,
                self.constraint_map@.len() == RING_CELLS,
                target == ring_propagate(*self.schematic, self.tiles@, d0, self.chunk@, self.adj.view()),
                d0.len() == RING_CELLS,
                forall|j: int| 0 <= j < i ==> #[trigger] self.constraint_map@[j]@ == target[j],
                forall|j: int| i <= j < RING_CELLS ==> #[trigger] self.constraint_map@[j]@ == d0[j],
                self.tiles == old(self).tiles,
                self.schematic == old(self).schematic,
                self.chunk == old(self).chunk,
                self.adj == old(self).adj,
                self.hash == old(self).hash,
                self.coords == old(self).coords,
            decreases RING_CELLS - i,
        {
            if self.tiles[i].is_some() {
                self.constraint_map.set(i, Vec::new());
            } else {
                let nd = self.refine(&self.constraint_map[i], i);
                self.constraint_map.set(i, nd);
            }
            i = i + 1;
        }
        assert(domains_view(self.constraint_map@) =~= target);
    }

    /// The narrowed domain of ring cell `i`.
    fn refine(&self, dom: &Vec<u8>, i: usize) -> (r: Vec<u8>)
        requires
            self.schematic.wf(),
            self.chunk@.len() == CHUNK_CELLS,
            neighbors_wf(self.adj.view()),
            self.tiles@.len() == RING_CELLS,
            i < RING_CELLS,
        ensures
            r@ == ring_refine(*self.schematic, self.tiles@, dom@, self.chunk@, self.adj.view(), i as int),
    {
        let n = CHUNK_TILE_LENGTH;
        let s = i / SIDE_CELLS;
        let k = i % SIDE_CELLS;
        let dir = side_direction(s);
        let mut cur = copy_domain(dom);
        if k > 0 {
            let inner = if s == 0 {
                (k - 1) * n + n - 1
            } else if s == 1 {
                (n - 1) * n + n - k
            } else if s == 2 {
                (n - k) * n
            } else {
                k - 1
            };
            cur = narrow_by_tile(self.schematic, self.chunk, cur, inner, dir);
            match self.adj.get(s) {
                Some(g) => {
                    let outer = if s == 0 {
                        (k - 1) * n
                    } else if s == 1 {
                        n - k
                    } else if s == 2 {
                        (n - k) * n + n - 1
                    } else {
                        (n - 1) * n + k - 1
                    };
                    assert(self.adj.view()[s as int] is Some);
                    cur = narrow_by_tile(self.schematic, g, cur, outer, dir.opposite());
                },
                None => {},
            }
        }
        let prev = if i == 0 {
            RING_CELLS - 1
        } else {
            i - 1
        };
        let next = if i + 1 == RING_CELLS {
            0
        } else {
            i + 1
        };
        cur = narrow_by_tile(self.schematic, &self.tiles, cur, prev, step_direction(i));
        cur = narrow_by_tile(self.schematic, &self.tiles, cur, next, step_direction(next).opposite());
        cur
    }
}

/// Outward direction of side `s`.
fn side_direction(s: usize) -> (r: Direction)
    ensures
        r == side_dir(s as int),
{
    if s == 0 {
        Direction::Up
    } else if s == 1 {
        Direction::Right
    } else if s == 2 {
        Direction::Down
    } else {
        Direction::Left
    }
}

/// The direction from the previous ring cell to cell `i`.
fn step_direction(i: usize) -> (r: Direction)
    requires
        i < RING_CELLS,
    ensures
        r == step_dir(i as int),
{
    let s = i / SIDE_CELLS;
    let k = i % SIDE_CELLS;
    let t = if k > 0 {
        s
    } else {
        (s + 3) % 4
    };
    if t == 0 {
        Direction::Right
    } else if t == 1 {
        Direction::Down
    } else if t == 2 {
        Direction::Left
    } else {
        Direction::Up
    }
}

} // verus!

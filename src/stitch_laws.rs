use vstd::prelude::*;

use crate::components::{opposite, Direction};
use crate::entropy::{lowest_entropy, open_count, pick};
use crate::schematic::SchematicAsset;
use crate::stitcher::{
    empty_ring, inner_index, next_cell, outer_index, prev_cell, rank_of, ring_domains,
    ring_propagate, ring_refine, side_dir, side_of, step_dir, stitch_from, stitched, RING_CELLS,
    SIDE_CELLS,
};
use crate::wfc::{by_tile, CHUNK_CELLS, CHUNK_TILE_LENGTH};
use crate::wfc_laws::symmetric;

verus! {

broadcast use vstd::seq_lib::group_seq_properties;

/// Tile `b` may stand on side `d` of tile `a`, and `a` on the opposite side
/// of `b`.
pub open spec fn compatible(schematic: SchematicAsset, a: u8, d: Direction, b: u8) -> bool {
    schematic.allows(a, d, b) && schematic.allows(b, opposite(d), a)
}

/// Identifier `v` at ring cell `i` fits the resolved interior tiles on both
/// sides of it: the own chunk's tile inside and the neighbour's tile outside.
pub open spec fn fits_sides(
    schematic: SchematicAsset,
    interior: Seq<Option<u8>>,
    adj: Seq<Option<Seq<Option<u8>>>>,
    i: int,
    v: u8,
) -> bool {
    let s = side_of(i);
    rank_of(i) > 0 ==> {
        &&& interior[inner_index(i)] is Some ==> schematic.allows(
            interior[inner_index(i)]->0,
            side_dir(s),
            v,
        )
        &&& (adj[s] is Some && adj[s]->0[outer_index(i)] is Some) ==> schematic.allows(
            adj[s]->0[outer_index(i)]->0,
            opposite(side_dir(s)),
            v,
        )
    }
}

/// Every resolved ring cell fits the interiors on both sides of it.
pub open spec fn ring_fits(
    schematic: SchematicAsset,
    interior: Seq<Option<u8>>,
    adj: Seq<Option<Seq<Option<u8>>>>,
    ring: Seq<Option<u8>>,
) -> bool {
    forall|i: int|
        0 <= i < RING_CELLS && (#[trigger] ring[i]) is Some ==> fits_sides(
            schematic,
            interior,
            adj,
            i,
            ring[i]->0,
        )
}

proof fn lemma_ring_refine_member(
    schematic: SchematicAsset,
    ring: Seq<Option<u8>>,
    dom: Seq<u8>,
    interior: Seq<Option<u8>>,
    adj: Seq<Option<Seq<Option<u8>>>>,
    i: int,
    x: u8,
)
    requires
        ring_refine(schematic, ring, dom, interior, adj, i).contains(x),
    ensures
        dom.contains(x),
        fits_sides(schematic, interior, adj, i, x),
        ring[prev_cell(i)] is Some ==> schematic.allows(ring[prev_cell(i)]->0, step_dir(i), x),
        ring[next_cell(i)] is Some ==> schematic.allows(
            ring[next_cell(i)]->0,
            opposite(step_dir(next_cell(i))),
            x,
        ),
{
    let s = side_of(i);
    let d1 = if rank_of(i) > 0 {
        by_tile(schematic, interior, dom, inner_index(i), side_dir(s))
    } else {
        dom
    };
    let d2 = if rank_of(i) > 0 && adj[s] is Some {
        by_tile(schematic, adj[s]->0, d1, outer_index(i), opposite(side_dir(s)))
    } else {
        d1
    };
    let d3 = by_tile(schematic, ring, d2, crate::stitcher::prev_cell(i), crate::stitcher::step_dir(i));
    lemma_by_tile_in(schematic, ring, d3, crate::stitcher::next_cell(i), opposite(crate::stitcher::step_dir(crate::stitcher::next_cell(i))), x);
    lemma_by_tile_in(schematic, ring, d2, crate::stitcher::prev_cell(i), crate::stitcher::step_dir(i), x);
    if rank_of(i) > 0 {
        if adj[s] is Some {
            lemma_by_tile_in(schematic, adj[s]->0, d1, outer_index(i), opposite(side_dir(s)), x);
        }
        lemma_by_tile_in(schematic, interior, dom, inner_index(i), side_dir(s), x);
    }
}

proof fn lemma_by_tile_in(
    schematic: SchematicAsset,
    tiles: Seq<Option<u8>>,
    dom: Seq<u8>,
    j: int,
    d: Direction,
    x: u8,
)
    requires
        by_tile(schematic, tiles, dom, j, d).contains(x),
    ensures
        dom.contains(x),
        tiles[j] is Some ==> schematic.allows(tiles[j]->0, d, x),
{
    if let Some(t) = tiles[j] {
        let p = schematic.allowed_by(t, d);
        dom.lemma_filter_contains_rev(p, x);
        let k = choose|k: int| 0 <= k < dom.filter(p).len() && dom.filter(p)[k] == x;
        dom.lemma_filter_pred(p, k);
    }
}

proof fn lemma_stitch_run_fits(
    schematic: SchematicAsset,
    hash: u64,
    interior: Seq<Option<u8>>,
    adj: Seq<Option<Seq<Option<u8>>>>,
    ring: Seq<Option<u8>>,
    doms: Seq<Seq<u8>>,
    fuel: nat,
)
    requires
        ring.len() == RING_CELLS,
        doms.len() == RING_CELLS,
        ring_fits(schematic, interior, adj, ring),
    ensures
        ring_fits(schematic, interior, adj, stitch_from(schematic, hash, interior, adj, ring, doms, fuel)),
    decreases fuel,
{
    let d = ring_propagate(schematic, ring, doms, interior, adj);
    if let Some(i) = lowest_entropy(d) {
        if fuel > 0 {
            crate::wfc_laws::lemma_lowest_exists(d);
            assert(crate::entropy::is_lowest(d, i));
            let v = pick(d[i], hash);
            let k = crate::entropy::seeded_draw(hash, d[i].len() as u64);
            vstd::arithmetic::div_mod::lemma_mod_bound(k as int, d[i].len() as int);
            assert(d[i].contains(v));
            assert(ring[i] is None);
            lemma_ring_refine_member(schematic, ring, doms[i], interior, adj, i, v);
            let r2 = ring.update(i, Some(v));
            assert forall|j: int| 0 <= j < RING_CELLS && (#[trigger] r2[j]) is Some implies fits_sides(
                schematic,
                interior,
                adj,
                j,
                r2[j]->0,
            ) by {
                if j != i {
                    assert(ring[j] is Some);
                }
            }
            lemma_stitch_run_fits(schematic, hash, interior, adj, r2, d, (fuel - 1) as nat);
        }
    }
}

/// Every resolved cell of a stitched ring fits the resolved interior tiles on
/// both sides of it: its own chunk's tile inside and the neighbour's outside.
pub proof fn lemma_ring_fits_interiors(
    schematic: SchematicAsset,
    hash: u64,
    interior: Seq<Option<u8>>,
    adj: Seq<Option<Seq<Option<u8>>>>,
)
    ensures
        ring_fits(schematic, interior, adj, stitched(schematic, hash, interior, adj)),
{
    let r0 = empty_ring();
    assert forall|j: int| 0 <= j < RING_CELLS && (#[trigger] r0[j]) is Some implies fits_sides(
        schematic,
        interior,
        adj,
        j,
        r0[j]->0,
    ) by {}
    lemma_stitch_run_fits(
        schematic,
        hash,
        interior,
        adj,
        r0,
        ring_domains(schematic, adj),
        open_count(r0),
    );
}

/// Seam between two chunks side by side, `a` to the west of `b`, each
/// stitched with the other as neighbour. Under rules that agree in both
/// directions, every resolved seam tile of either ring is compatible with
/// the resolved interior tiles west and east of it, row by row.
pub proof fn lemma_seam_east_west(
    schematic: SchematicAsset,
    hash_a: u64,
    a: Seq<Option<u8>>,
    adj_a: Seq<Option<Seq<Option<u8>>>>,
    hash_b: u64,
    b: Seq<Option<u8>>,
    adj_b: Seq<Option<Seq<Option<u8>>>>,
)
    requires
        symmetric(schematic),
        adj_a[1] == Some(b),
        adj_b[3] == Some(a),
    ensures
        forall|k: int|
            1 <= k <= CHUNK_TILE_LENGTH ==> {
                let v = #[trigger] stitched(schematic, hash_a, a, adj_a)[SIDE_CELLS + k];
                let row = CHUNK_TILE_LENGTH - k;
                let west = a[(CHUNK_TILE_LENGTH - 1) * CHUNK_TILE_LENGTH + row];
                let east = b[row];
                v is Some ==> (west is Some ==> compatible(schematic, west->0, Direction::Right, v->0))
                    && (east is Some ==> compatible(schematic, v->0, Direction::Right, east->0))
            },
        forall|k: int|
            1 <= k <= CHUNK_TILE_LENGTH ==> {
                let w = #[trigger] stitched(schematic, hash_b, b, adj_b)[3 * SIDE_CELLS + k];
                let row = k - 1;
                let west = a[(CHUNK_TILE_LENGTH - 1) * CHUNK_TILE_LENGTH + row];
                let east = b[row];
                w is Some ==> (west is Some ==> compatible(schematic, west->0, Direction::Right, w->0))
                    && (east is Some ==> compatible(schematic, w->0, Direction::Right, east->0))
            },
{
    let ra = stitched(schematic, hash_a, a, adj_a);
    let rb = stitched(schematic, hash_b, b, adj_b);
    lemma_ring_fits_interiors(schematic, hash_a, a, adj_a);
    lemma_ring_fits_interiors(schematic, hash_b, b, adj_b);
    let n = CHUNK_TILE_LENGTH as int;
    assert forall|k: int| 1 <= k <= CHUNK_TILE_LENGTH implies {
        let v = #[trigger] ra[SIDE_CELLS + k];
        let row = CHUNK_TILE_LENGTH - k;
        let west = a[(CHUNK_TILE_LENGTH - 1) * CHUNK_TILE_LENGTH + row];
        let east = b[row];
        v is Some ==> (west is Some ==> compatible(schematic, west->0, Direction::Right, v->0))
            && (east is Some ==> compatible(schematic, v->0, Direction::Right, east->0))
    } by {
        let i = SIDE_CELLS + k;
        assert(side_of(i) == 1 && rank_of(i) == k);
        if ra[i] is Some {
            let v = ra[i]->0;
            assert(fits_sides(schematic, a, adj_a, i, v));
            if let Some(w) = a[inner_index(i)] {
                assert(schematic.allows(w, Direction::Right, v));
                assert(schematic.allows(w, Direction::Right, v) == schematic.allows(
                    v,
                    opposite(Direction::Right),
                    w,
                ));
            }
            if let Some(e) = b[outer_index(i)] {
                assert(schematic.allows(e, Direction::Left, v));
                assert(schematic.allows(e, Direction::Left, v) == schematic.allows(
                    v,
                    opposite(Direction::Left),
                    e,
                ));
            }
        }
    }
    assert forall|k: int| 1 <= k <= CHUNK_TILE_LENGTH implies {
        let w = #[trigger] rb[3 * SIDE_CELLS + k];
        let row = k - 1;
        let west = a[(CHUNK_TILE_LENGTH - 1) * CHUNK_TILE_LENGTH + row];
        let east = b[row];
        w is Some ==> (west is Some ==> compatible(schematic, west->0, Direction::Right, w->0))
            && (east is Some ==> compatible(schematic, w->0, Direction::Right, east->0))
    } by {
        let i = 3 * SIDE_CELLS + k;
        assert(side_of(i) == 3 && rank_of(i) == k);
        if rb[i] is Some {
            let v = rb[i]->0;
            assert(fits_sides(schematic, b, adj_b, i, v));
            if let Some(e) = b[inner_index(i)] {
                assert(schematic.allows(e, Direction::Left, v));
                assert(schematic.allows(e, Direction::Left, v) == schematic.allows(
                    v,
                    opposite(Direction::Left),
                    e,
                ));
            }
            if let Some(w) = a[outer_index(i)] {
                assert(schematic.allows(w, Direction::Right, v));
                assert(schematic.allows(w, Direction::Right, v) == schematic.allows(
                    v,
                    opposite(Direction::Right),
                    w,
                ));
            }
        }
    }
}

/// Seam between two chunks one above the other, `a` to the south of `b`,
/// each stitched with the other as neighbour. Under rules that agree in both
/// directions, every resolved seam tile of either ring is compatible with
/// the resolved interior tiles south and north of it, column by column.
pub proof fn lemma_seam_north_south(
    schematic: SchematicAsset,
    hash_a: u64,
    a: Seq<Option<u8>>,
    adj_a: Seq<Option<Seq<Option<u8>>>>,
    hash_b: u64,
    b: Seq<Option<u8>>,
    adj_b: Seq<Option<Seq<Option<u8>>>>,
)
    requires
        symmetric(schematic),
        adj_a[0] == Some(b),
        adj_b[2] == Some(a),
    ensures
        forall|k: int|
            1 <= k <= CHUNK_TILE_LENGTH ==> {
                let v = #[trigger] stitched(schematic, hash_a, a, adj_a)[k];
                let col = k - 1;
                let south = a[col * CHUNK_TILE_LENGTH + CHUNK_TILE_LENGTH - 1];
                let north = b[col * CHUNK_TILE_LENGTH];
                v is Some ==> (south is Some ==> compatible(schematic, south->0, Direction::Up, v->0))
                    && (north is Some ==> compatible(schematic, v->0, Direction::Up, north->0))
            },
        forall|k: int|
            1 <= k <= CHUNK_TILE_LENGTH ==> {
                let w = #[trigger] stitched(schematic, hash_b, b, adj_b)[2 * SIDE_CELLS + k];
                let col = CHUNK_TILE_LENGTH - k;
                let south = a[col * CHUNK_TILE_LENGTH + CHUNK_TILE_LENGTH - 1];
                let north = b[col * CHUNK_TILE_LENGTH];
                w is Some ==> (south is Some ==> compatible(schematic, south->0, Direction::Up, w->0))
                    && (north is Some ==> compatible(schematic, w->0, Direction::Up, north->0))
            },
{
    let ra = stitched(schematic, hash_a, a, adj_a);
    let rb = stitched(schematic, hash_b, b, adj_b);
    lemma_ring_fits_interiors(schematic, hash_a, a, adj_a);
    lemma_ring_fits_interiors(schematic, hash_b, b, adj_b);
    assert forall|k: int| 1 <= k <= CHUNK_TILE_LENGTH implies {
        let v = #[trigger] ra[k];
        let col = k - 1;
        let south = a[col * CHUNK_TILE_LENGTH + CHUNK_TILE_LENGTH - 1];
        let north = b[col * CHUNK_TILE_LENGTH];
        v is Some ==> (south is Some ==> compatible(schematic, south->0, Direction::Up, v->0))
            && (north is Some ==> compatible(schematic, v->0, Direction::Up, north->0))
    } by {
        assert(side_of(k) == 0 && rank_of(k) == k);
        if ra[k] is Some {
            let v = ra[k]->0;
            assert(fits_sides(schematic, a, adj_a, k, v));
            if let Some(t) = a[inner_index(k)] {
                assert(schematic.allows(t, Direction::Up, v));
                assert(schematic.allows(t, Direction::Up, v) == schematic.allows(
                    v,
                    opposite(Direction::Up),
                    t,
                ));
            }
            if let Some(t) = b[outer_index(k)] {
                assert(schematic.allows(t, Direction::Down, v));
                assert(schematic.allows(t, Direction::Down, v) == schematic.allows(
                    v,
                    opposite(Direction::Down),
                    t,
                ));
            }
        }
    }
    assert forall|k: int| 1 <= k <= CHUNK_TILE_LENGTH implies {
        let w = #[trigger] rb[2 * SIDE_CELLS + k];
        let col = CHUNK_TILE_LENGTH - k;
        let south = a[col * CHUNK_TILE_LENGTH + CHUNK_TILE_LENGTH - 1];
        let north = b[col * CHUNK_TILE_LENGTH];
        w is Some ==> (south is Some ==> compatible(schematic, south->0, Direction::Up, w->0))
            && (north is Some ==> compatible(schematic, w->0, Direction::Up, north->0))
    } by {
        let i = 2 * SIDE_CELLS + k;
        assert(side_of(i) == 2 && rank_of(i) == k);
        if rb[i] is Some {
            let v = rb[i]->0;
            assert(fits_sides(schematic, b, adj_b, i, v));
            if let Some(t) = b[inner_index(i)] {
                assert(schematic.allows(t, Direction::Down, v));
                assert(schematic.allows(t, Direction::Down, v) == schematic.allows(
                    v,
                    opposite(Direction::Down),
                    t,
                ));
            }
            if let Some(t) = a[outer_index(i)] {
                assert(schematic.allows(t, Direction::Up, v));
                assert(schematic.allows(t, Direction::Up, v) == schematic.allows(
                    v,
                    opposite(Direction::Up),
                    t,
                ));
            }
        }
    }
}

/// Every pair of consecutive resolved ring cells satisfies the rules in
/// both directions.
pub open spec fn ring_consistent(schematic: SchematicAsset, ring: Seq<Option<u8>>) -> bool {
    forall|i: int|
        0 <= i < RING_CELLS && ring[i] is Some && (#[trigger] ring[next_cell(i)]) is Some
            ==> compatible(schematic, ring[i]->0, step_dir(next_cell(i)), ring[next_cell(i)]->0)
}

proof fn lemma_opposite_twice(d: Direction)
    ensures
        opposite(opposite(d)) == d,
{
}

proof fn lemma_ring_step_consistent(
    schematic: SchematicAsset,
    ring: Seq<Option<u8>>,
    dom: Seq<u8>,
    interior: Seq<Option<u8>>,
    adj: Seq<Option<Seq<Option<u8>>>>,
    i: int,
    v: u8,
)
    requires
        symmetric(schematic),
        ring.len() == RING_CELLS,
        0 <= i < RING_CELLS,
        ring[i] is None,
        ring_refine(schematic, ring, dom, interior, adj, i).contains(v),
        ring_consistent(schematic, ring),
    ensures
        ring_consistent(schematic, ring.update(i, Some(v))),
{
    let r2 = ring.update(i, Some(v));
    lemma_ring_refine_member(schematic, ring, dom, interior, adj, i, v);
    assert forall|j: int|
        0 <= j < RING_CELLS && r2[j] is Some && (#[trigger] r2[next_cell(j)]) is Some implies compatible(
        schematic,
        r2[j]->0,
        step_dir(next_cell(j)),
        r2[next_cell(j)]->0,
    ) by {
        let n = next_cell(j);
        if j == i {
            let q = ring[n]->0;
            let d = step_dir(n);
            lemma_opposite_twice(d);
            assert(schematic.allows(q, opposite(d), v));
            assert(schematic.allows(q, opposite(d), v) == schematic.allows(v, opposite(opposite(d)), q));
        } else if n == i {
            assert(prev_cell(i) == j);
            let p = ring[j]->0;
            let d = step_dir(i);
            assert(schematic.allows(p, d, v));
            assert(schematic.allows(p, d, v) == schematic.allows(v, opposite(d), p));
        } else {
            assert(ring[j] is Some && ring[n] is Some);
        }
    }
}

proof fn lemma_stitch_run_consistent(
    schematic: SchematicAsset,
    hash: u64,
    interior: Seq<Option<u8>>,
    adj: Seq<Option<Seq<Option<u8>>>>,
    ring: Seq<Option<u8>>,
    doms: Seq<Seq<u8>>,
    fuel: nat,
)
    requires
        symmetric(schematic),
        ring.len() == RING_CELLS,
        doms.len() == RING_CELLS,
        ring_consistent(schematic, ring),
    ensures
        ring_consistent(schematic, stitch_from(schematic, hash, interior, adj, ring, doms, fuel)),
    decreases fuel,
{
    let d = ring_propagate(schematic, ring, doms, interior, adj);
    if let Some(i) = lowest_entropy(d) {
        if fuel > 0 {
            crate::wfc_laws::lemma_lowest_exists(d);
            assert(crate::entropy::is_lowest(d, i));
            let v = pick(d[i], hash);
            let k = crate::entropy::seeded_draw(hash, d[i].len() as u64);
            vstd::arithmetic::div_mod::lemma_mod_bound(k as int, d[i].len() as int);
            assert(d[i].contains(v));
            assert(ring[i] is None);
            lemma_ring_step_consistent(schematic, ring, doms[i], interior, adj, i, v);
            lemma_stitch_run_consistent(schematic, hash, interior, adj, ring.update(i, Some(v)), d, (fuel - 1) as nat);
        }
    }
}

/// Under rules that agree in both directions, consecutive resolved cells of
/// a stitched ring, corners included, satisfy the adjacency rules.
pub proof fn lemma_ring_continuous(
    schematic: SchematicAsset,
    hash: u64,
    interior: Seq<Option<u8>>,
    adj: Seq<Option<Seq<Option<u8>>>>,
)
    requires
        symmetric(schematic),
    ensures
        ring_consistent(schematic, stitched(schematic, hash, interior, adj)),
{
    let r0 = empty_ring();
    assert forall|j: int|
        0 <= j < RING_CELLS && r0[j] is Some && (#[trigger] r0[next_cell(j)]) is Some implies compatible(
        schematic,
        r0[j]->0,
        step_dir(next_cell(j)),
        r0[next_cell(j)]->0,
    ) by {}
    lemma_stitch_run_consistent(
        schematic,
        hash,
        interior,
        adj,
        r0,
        ring_domains(schematic, adj),
        open_count(r0),
    );
}

/// A ring propagation pass never enlarges a domain: each new domain keeps
/// only identifiers of the old one, and is no longer.
pub proof fn lemma_ring_propagation_monotone(
    schematic: SchematicAsset,
    ring: Seq<Option<u8>>,
    doms: Seq<Seq<u8>>,
    interior: Seq<Option<u8>>,
    adj: Seq<Option<Seq<Option<u8>>>>,
)
    ensures
        ring_propagate(schematic, ring, doms, interior, adj).len() == doms.len(),
        forall|i: int, x: u8|
            0 <= i < doms.len() && #[trigger] ring_propagate(schematic, ring, doms, interior, adj)[i].contains(x)
                ==> doms[i].contains(x),
        forall|i: int|
            0 <= i < doms.len() ==> (#[trigger] ring_propagate(schematic, ring, doms, interior, adj)[i]).len()
                <= doms[i].len(),
{
    broadcast use vstd::seq_lib::group_filter_ensures;

    let d = ring_propagate(schematic, ring, doms, interior, adj);
    assert forall|i: int, x: u8| 0 <= i < doms.len() && #[trigger] d[i].contains(x) implies doms[i].contains(x) by {
        if ring[i] is None {
            lemma_ring_refine_member(schematic, ring, doms[i], interior, adj, i, x);
        }
    }
    assert forall|i: int| 0 <= i < doms.len() implies (#[trigger] d[i]).len() <= doms[i].len() by {
        if ring[i] is None {
            let dom = doms[i];
            let s = side_of(i);
            let d1 = if rank_of(i) > 0 {
                by_tile(schematic, interior, dom, inner_index(i), side_dir(s))
            } else {
                dom
            };
            let d2 = if rank_of(i) > 0 && adj[s] is Some {
                by_tile(schematic, adj[s]->0, d1, outer_index(i), opposite(side_dir(s)))
            } else {
                d1
            };
            let d3 = by_tile(schematic, ring, d2, prev_cell(i), step_dir(i));
            assert(d1.len() <= dom.len());
            assert(d2.len() <= d1.len());
            assert(d3.len() <= d2.len());
            assert(d[i].len() <= d3.len());
        }
    }
}

} // verus!

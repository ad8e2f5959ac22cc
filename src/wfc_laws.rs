use vstd::prelude::*;

use crate::components::{opposite, Direction};
use crate::coords::ChunkCoords;
use crate::entropy::{has_open, hash_key, is_lowest, lowest_entropy, open_count, pick};
use crate::schematic::SchematicAsset;
use crate::wfc::{
    by_tile, collapse_from, full_domains, generated, propagate, refine_cell, seeded_tiles,
    CHUNK_CELLS, CHUNK_TILE_LENGTH,
};

verus! {

broadcast use vstd::seq_lib::group_seq_properties;

/// Every identifier in `s` names a tile type.
pub open spec fn all_known(schematic: SchematicAsset, s: Seq<u8>) -> bool {
    forall|k: int| 0 <= k < s.len() ==> schematic.has_id(#[trigger] s[k])
}

/// The identifier a cell is drawn with: its own, or the fallback.
pub open spec fn shown(schematic: SchematicAsset, cell: Option<u8>) -> u8 {
    match cell {
        Some(t) => t,
        None => schematic.not_found,
    }
}

/// The rules agree in both directions: `b` may stand on side `d` of `a`
/// exactly when `a` may stand on the opposite side of `b`.
pub open spec fn symmetric(schematic: SchematicAsset) -> bool {
    forall|a: u8, d: Direction, b: u8|
        #[trigger] schematic.allows(a, d, b) == schematic.allows(b, opposite(d), a)
}

/// Every pair of 4-adjacent resolved interior cells satisfies the rules in
/// both directions.
pub open spec fn grid_consistent(schematic: SchematicAsset, tiles: Seq<Option<u8>>) -> bool {
    let n = CHUNK_TILE_LENGTH as int;
    forall|i: int|
        0 <= i < CHUNK_CELLS ==> {
            &&& (i / n + 1 < n && tiles[i] is Some && (#[trigger] tiles[i + n]) is Some) ==> {
                &&& schematic.allows(tiles[i]->0, Direction::Right, tiles[i + n]->0)
                &&& schematic.allows(tiles[i + n]->0, Direction::Left, tiles[i]->0)
            }
            &&& (i % n + 1 < n && tiles[i] is Some && (#[trigger] tiles[i + 1]) is Some) ==> {
                &&& schematic.allows(tiles[i]->0, Direction::Up, tiles[i + 1]->0)
                &&& schematic.allows(tiles[i + 1]->0, Direction::Down, tiles[i]->0)
            }
        }
}

proof fn lemma_filter_member(s: Seq<u8>, p: spec_fn(u8) -> bool, x: u8)
    requires
        s.filter(p).contains(x),
    ensures
        s.contains(x),
        p(x),
{
    s.lemma_filter_contains_rev(p, x);
    let k = choose|k: int| 0 <= k < s.filter(p).len() && s.filter(p)[k] == x;
    s.lemma_filter_pred(p, k);
}

proof fn lemma_by_tile_member(
    schematic: SchematicAsset,
    tiles: Seq<Option<u8>>,
    dom: Seq<u8>,
    j: int,
    d: Direction,
    x: u8,
)
    requires
        by_tile(schematic, tiles, dom, j, d).contains(x),
    ensures
        dom.contains(x),
        tiles[j] is Some ==> schematic.allows(tiles[j]->0, d, x),
{
    if let Some(t) = tiles[j] {
        lemma_filter_member(dom, schematic.allowed_by(t, d), x);
    }
}

proof fn lemma_refine_member(schematic: SchematicAsset, tiles: Seq<Option<u8>>, dom: Seq<u8>, i: int, x: u8)
    requires
        refine_cell(schematic, tiles, dom, i).contains(x),
    ensures
        dom.contains(x),
        i / (CHUNK_TILE_LENGTH as int) > 0 && tiles[i - CHUNK_TILE_LENGTH] is Some ==> schematic.allows(
            tiles[i - CHUNK_TILE_LENGTH]->0,
            Direction::Right,
            x,
        ),
        i % (CHUNK_TILE_LENGTH as int) > 0 && tiles[i - 1] is Some ==> schematic.allows(
            tiles[i - 1]->0,
            Direction::Up,
            x,
        ),
        i / (CHUNK_TILE_LENGTH as int) + 1 < CHUNK_TILE_LENGTH && tiles[i + CHUNK_TILE_LENGTH] is Some
            ==> schematic.allows(tiles[i + CHUNK_TILE_LENGTH]->0, Direction::Left, x),
        i % (CHUNK_TILE_LENGTH as int) + 1 < CHUNK_TILE_LENGTH && tiles[i + 1] is Some
            ==> schematic.allows(tiles[i + 1]->0, Direction::Down, x),
{
    let n = CHUNK_TILE_LENGTH as int;
    let x0 = i / n;
    let y0 = i % n;
    let d1 = if x0 > 0 {
        by_tile(schematic, tiles, dom, i - n, Direction::Right)
    } else {
        dom
    };
    let d2 = if y0 > 0 {
        by_tile(schematic, tiles, d1, i - 1, Direction::Up)
    } else {
        d1
    };
    let d3 = if x0 + 1 < n {
        by_tile(schematic, tiles, d2, i + n, Direction::Left)
    } else {
        d2
    };
    if y0 + 1 < n {
        lemma_by_tile_member(schematic, tiles, d3, i + 1, Direction::Down, x);
    }
    if x0 + 1 < n {
        lemma_by_tile_member(schematic, tiles, d2, i + n, Direction::Left, x);
    }
    if y0 > 0 {
        lemma_by_tile_member(schematic, tiles, d1, i - 1, Direction::Up, x);
    }
    if x0 > 0 {
        lemma_by_tile_member(schematic, tiles, dom, i - n, Direction::Right, x);
    }
}

/// Some cell is selected whenever a nonempty domain is left.
pub proof fn lemma_lowest_exists(doms: Seq<Seq<u8>>)
    requires
        has_open(doms),
    ensures
        exists|i: int| is_lowest(doms, i),
    decreases doms.len(),
{
    let n = doms.len();
    let p = doms.drop_last();
    if has_open(p) {
        lemma_lowest_exists(p);
        let i = choose|i: int| is_lowest(p, i);
        assert forall|j: int| 0 <= j < n - 1 implies #[trigger] doms[j] == p[j] by {}
        if doms[n - 1].len() > 0 && doms[n - 1].len() < doms[i].len() {
            assert forall|j: int| 0 <= j < n && doms[j].len() > 0 implies doms[n - 1].len() <= #[trigger] doms[j].len() by {
                if j < n - 1 {
                    assert(p[j].len() > 0);
                }
            }
            assert forall|j: int| 0 <= j < n - 1 && doms[j].len() > 0 implies doms[n - 1].len() < #[trigger] doms[j].len() by {
                assert(p[j].len() > 0);
            }
            assert(is_lowest(doms, n - 1));
        } else {
            assert forall|j: int| 0 <= j < n && doms[j].len() > 0 implies doms[i].len() <= #[trigger] doms[j].len() by {
                if j < n - 1 {
                    assert(p[j].len() > 0);
                }
            }
            assert forall|j: int| 0 <= j < i && doms[j].len() > 0 implies doms[i].len() < #[trigger] doms[j].len() by {
                assert(p[j].len() > 0);
            }
            assert(is_lowest(doms, i));
        }
    } else {
        assert(doms[n - 1].len() > 0) by {
            let j = choose|j: int| 0 <= j < doms.len() && (#[trigger] doms[j]).len() > 0;
            if j < n - 1 {
                assert(p[j].len() > 0);
            }
        }
        assert forall|j: int| 0 <= j < n - 1 implies (#[trigger] doms[j]).len() == 0 by {
            if doms[j].len() > 0 {
                assert(p[j].len() > 0);
            }
        }
        assert(is_lowest(doms, n - 1));
    }
}

proof fn lemma_selected(doms: Seq<Seq<u8>>, i: int)
    requires
        lowest_entropy(doms) == Some(i),
    ensures
        is_lowest(doms, i),
{
    lemma_lowest_exists(doms);
}

proof fn lemma_pick_member(dom: Seq<u8>, hash: u64)
    requires
        dom.len() > 0,
    ensures
        dom.contains(pick(dom, hash)),
{
    let k = crate::entropy::seeded_draw(hash, dom.len() as u64);
    vstd::arithmetic::div_mod::lemma_mod_bound(k as int, dom.len() as int);
    assert(dom[(k as int) % (dom.len() as int)] == pick(dom, hash));
}

/// A propagation pass never enlarges a domain: each new domain keeps only
/// identifiers of the old one, and is no longer.
pub proof fn lemma_propagation_monotone(
    schematic: SchematicAsset,
    tiles: Seq<Option<u8>>,
    doms: Seq<Seq<u8>>,
)
    ensures
        forall|i: int|
            0 <= i < doms.len() ==> (#[trigger] propagate(schematic, tiles, doms)[i]).len()
                <= doms[i].len(),
        forall|i: int, x: u8|
            0 <= i < doms.len() && #[trigger] propagate(schematic, tiles, doms)[i].contains(x)
                ==> doms[i].contains(x),
        propagate(schematic, tiles, doms).len() == doms.len(),
{
    assert forall|i: int, x: u8|
        0 <= i < doms.len() && #[trigger] propagate(schematic, tiles, doms)[i].contains(x)
            implies doms[i].contains(x) by {
        if tiles[i] is None {
            lemma_refine_member(schematic, tiles, doms[i], i, x);
        }
    }
    broadcast use vstd::seq_lib::group_filter_ensures;

    let n = CHUNK_TILE_LENGTH as int;
    assert forall|i: int| 0 <= i < doms.len() implies (#[trigger] propagate(
        schematic,
        tiles,
        doms,
    )[i]).len() <= doms[i].len() by {
        if tiles[i] is None {
            let dom = doms[i];
            let d1 = if i / n > 0 {
                by_tile(schematic, tiles, dom, i - n, Direction::Right)
            } else {
                dom
            };
            let d2 = if i % n > 0 {
                by_tile(schematic, tiles, d1, i - 1, Direction::Up)
            } else {
                d1
            };
            let d3 = if i / n + 1 < n {
                by_tile(schematic, tiles, d2, i + n, Direction::Left)
            } else {
                d2
            };
            let d4 = refine_cell(schematic, tiles, dom, i);
            assert(d1.len() <= dom.len());
            assert(d2.len() <= d1.len());
            assert(d3.len() <= d2.len());
            assert(d4.len() <= d3.len());
        }
    }
}

proof fn lemma_propagate_known(schematic: SchematicAsset, tiles: Seq<Option<u8>>, doms: Seq<Seq<u8>>)
    requires
        forall|i: int| 0 <= i < doms.len() ==> all_known(schematic, #[trigger] doms[i]),
    ensures
        forall|i: int|
            0 <= i < doms.len() ==> all_known(
                schematic,
                #[trigger] propagate(schematic, tiles, doms)[i],
            ),
{
    let d = propagate(schematic, tiles, doms);
    assert forall|i: int| 0 <= i < doms.len() implies all_known(schematic, #[trigger] d[i]) by {
        assert forall|k: int| 0 <= k < d[i].len() implies schematic.has_id(#[trigger] d[i][k]) by {
            lemma_refine_member(schematic, tiles, doms[i], i, d[i][k]);
            let m = choose|m: int| 0 <= m < doms[i].len() && doms[i][m] == d[i][k];
        }
    }
}

proof fn lemma_run_known(
    schematic: SchematicAsset,
    hash: u64,
    tiles: Seq<Option<u8>>,
    doms: Seq<Seq<u8>>,
    fuel: nat,
)
    requires
        tiles.len() == doms.len(),
        forall|i: int| 0 <= i < doms.len() ==> all_known(schematic, #[trigger] doms[i]),
        forall|i: int| 0 <= i < tiles.len() && (#[trigger] tiles[i]) is Some ==> schematic.has_id(tiles[i]->0),
    ensures
        collapse_from(schematic, hash, tiles, doms, fuel).len() == tiles.len(),
        forall|i: int|
            0 <= i < tiles.len() && (#[trigger] collapse_from(schematic, hash, tiles, doms, fuel)[i]) is Some
                ==> schematic.has_id(collapse_from(schematic, hash, tiles, doms, fuel)[i]->0),
    decreases fuel,
{
    let d = propagate(schematic, tiles, doms);
    lemma_propagate_known(schematic, tiles, doms);
    if let Some(i) = lowest_entropy(d) {
        if fuel > 0 {
            lemma_selected(d, i);
            lemma_pick_member(d[i], hash);
            let v = pick(d[i], hash);
            let m = choose|m: int| 0 <= m < d[i].len() && d[i][m] == v;
            assert(schematic.has_id(d[i][m]));
            let t2 = tiles.update(i, Some(v));
            lemma_run_known(schematic, hash, t2, d, (fuel - 1) as nat);
        }
    }
}

/// Every cell of a generated interior is drawn with a tile type of the
/// schematic: resolved cells hold one, unresolved cells show the fallback.
pub proof fn lemma_interior_complete(schematic: SchematicAsset, world_seed: u64, coords: ChunkCoords)
    requires
        schematic.wf(),
    ensures
        generated(schematic, world_seed, coords).len() == CHUNK_CELLS,
        forall|i: int|
            0 <= i < CHUNK_CELLS ==> schematic.has_id(
                #[trigger] shown(schematic, generated(schematic, world_seed, coords)[i]),
            ),
{
    let h = crate::entropy::chunk_hash(world_seed, coords);
    let t0 = seeded_tiles(schematic, h);
    let d0 = full_domains(schematic);
    let ids = schematic.ids();
    assert forall|k: int| 0 <= k < ids.len() implies schematic.has_id(#[trigger] ids[k]) by {
        assert(schematic.tiles@[k].0 == ids[k]);
    }
    assert forall|i: int| 0 <= i < d0.len() implies all_known(schematic, #[trigger] d0[i]) by {
        assert(d0[i] == ids);
    }
    assert(ids.len() > 0);
    lemma_pick_member(ids, h);
    lemma_run_known(schematic, h, t0, d0, open_count(t0));
}

proof fn lemma_step_consistent(
    schematic: SchematicAsset,
    tiles: Seq<Option<u8>>,
    doms: Seq<Seq<u8>>,
    i: int,
    v: u8,
)
    requires
        symmetric(schematic),
        tiles.len() == CHUNK_CELLS,
        doms.len() == CHUNK_CELLS,
        0 <= i < CHUNK_CELLS,
        tiles[i] is None,
        refine_cell(schematic, tiles, doms[i], i).contains(v),
        grid_consistent(schematic, tiles),
    ensures
        grid_consistent(schematic, tiles.update(i, Some(v))),
{
    let n = CHUNK_TILE_LENGTH as int;
    let t2 = tiles.update(i, Some(v));
    lemma_refine_member(schematic, tiles, doms[i], i, v);
    assert forall|p: int| 0 <= p < CHUNK_CELLS implies {
        &&& (p / n + 1 < n && t2[p] is Some && (#[trigger] t2[p + n]) is Some) ==> {
            &&& schematic.allows(t2[p]->0, Direction::Right, t2[p + n]->0)
            &&& schematic.allows(t2[p + n]->0, Direction::Left, t2[p]->0)
        }
        &&& (p % n + 1 < n && t2[p] is Some && (#[trigger] t2[p + 1]) is Some) ==> {
            &&& schematic.allows(t2[p]->0, Direction::Up, t2[p + 1]->0)
            &&& schematic.allows(t2[p + 1]->0, Direction::Down, t2[p]->0)
        }
    } by {
        if p / n + 1 < n && t2[p] is Some && t2[p + n] is Some {
            if p == i {
                let b = tiles[i + n]->0;
                assert(schematic.allows(b, Direction::Left, v));
                assert(schematic.allows(b, opposite(Direction::Right), v));
            } else if p + n == i {
                let a = tiles[p]->0;
                assert(i / n == p / n + 1);
                assert(schematic.allows(a, Direction::Right, v));
                assert(schematic.allows(a, Direction::Right, v) == schematic.allows(
                    v,
                    opposite(Direction::Right),
                    a,
                ));
            } else {
                assert(tiles[p + n] is Some);
            }
        }
        if p % n + 1 < n && t2[p] is Some && t2[p + 1] is Some {
            if p == i {
                let b = tiles[i + 1]->0;
                assert(schematic.allows(b, Direction::Down, v));
                assert(schematic.allows(b, opposite(Direction::Up), v));
            } else if p + 1 == i {
                let a = tiles[p]->0;
                assert(i % n == p % n + 1);
                assert(schematic.allows(a, Direction::Up, v));
                assert(schematic.allows(a, Direction::Up, v) == schematic.allows(
                    v,
                    opposite(Direction::Up),
                    a,
                ));
            } else {
                assert(tiles[p + 1] is Some);
            }
        }
    }
}

proof fn lemma_run_consistent(
    schematic: SchematicAsset,
    hash: u64,
    tiles: Seq<Option<u8>>,
    doms: Seq<Seq<u8>>,
    fuel: nat,
)
    requires
        symmetric(schematic),
        tiles.len() == CHUNK_CELLS,
        doms.len() == CHUNK_CELLS,
        grid_consistent(schematic, tiles),
    ensures
        grid_consistent(schematic, collapse_from(schematic, hash, tiles, doms, fuel)),
    decreases fuel,
{
    let d = propagate(schematic, tiles, doms);
    if let Some(i) = lowest_entropy(d) {
        if fuel > 0 {
            lemma_selected(d, i);
            lemma_pick_member(d[i], hash);
            let v = pick(d[i], hash);
            assert(tiles[i] is None);
            lemma_step_consistent(schematic, tiles, doms, i, v);
            lemma_run_consistent(schematic, hash, tiles.update(i, Some(v)), d, (fuel - 1) as nat);
        }
    }
}

/// Under rules that agree in both directions, every pair of 4-adjacent
/// resolved cells of a generated interior satisfies the adjacency rules.
pub proof fn lemma_interior_adjacency(schematic: SchematicAsset, world_seed: u64, coords: ChunkCoords)
    requires
        schematic.wf(),
        symmetric(schematic),
    ensures
        grid_consistent(schematic, generated(schematic, world_seed, coords)),
{
    let h = crate::entropy::chunk_hash(world_seed, coords);
    let t0 = seeded_tiles(schematic, h);
    let n = CHUNK_TILE_LENGTH as int;
    assert forall|p: int| 0 <= p < CHUNK_CELLS implies {
        &&& (p / n + 1 < n && t0[p] is Some && (#[trigger] t0[p + n]) is Some) ==> {
            &&& schematic.allows(t0[p]->0, Direction::Right, t0[p + n]->0)
            &&& schematic.allows(t0[p + n]->0, Direction::Left, t0[p]->0)
        }
        &&& (p % n + 1 < n && t0[p] is Some && (#[trigger] t0[p + 1]) is Some) ==> {
            &&& schematic.allows(t0[p]->0, Direction::Up, t0[p + 1]->0)
            &&& schematic.allows(t0[p + 1]->0, Direction::Down, t0[p]->0)
        }
    } by {}
    lemma_run_consistent(schematic, h, t0, full_domains(schematic), open_count(t0));
}

/// Generation depends on the coordinates only through the hash key: two
/// chunks whose coordinate sums agree get the same interior.
pub proof fn lemma_same_key_same_interior(
    schematic: SchematicAsset,
    world_seed: u64,
    a: ChunkCoords,
    b: ChunkCoords,
)
    requires
        hash_key(world_seed, a) == hash_key(world_seed, b),
    ensures
        generated(schematic, world_seed, a) == generated(schematic, world_seed, b),
{
}

/// Every pair of 4-adjacent resolved interior cells satisfies the rules in
/// at least one direction.
pub open spec fn grid_one_sided(schematic: SchematicAsset, tiles: Seq<Option<u8>>) -> bool {
    let n = CHUNK_TILE_LENGTH as int;
    forall|i: int|
        0 <= i < CHUNK_CELLS ==> {
            &&& (i / n + 1 < n && tiles[i] is Some && (#[trigger] tiles[i + n]) is Some) ==> (
            schematic.allows(tiles[i]->0, Direction::Right, tiles[i + n]->0) || schematic.allows(
                tiles[i + n]->0,
                Direction::Left,
                tiles[i]->0,
            ))
            &&& (i % n + 1 < n && tiles[i] is Some && (#[trigger] tiles[i + 1]) is Some) ==> (
            schematic.allows(tiles[i]->0, Direction::Up, tiles[i + 1]->0) || schematic.allows(
                tiles[i + 1]->0,
                Direction::Down,
                tiles[i]->0,
            ))
        }
}

proof fn lemma_step_one_sided(
    schematic: SchematicAsset,
    tiles: Seq<Option<u8>>,
    doms: Seq<Seq<u8>>,
    i: int,
    v: u8,
)
    requires
        tiles.len() == CHUNK_CELLS,
        doms.len() == CHUNK_CELLS,
        0 <= i < CHUNK_CELLS,
        tiles[i] is None,
        refine_cell(schematic, tiles, doms[i], i).contains(v),
        grid_one_sided(schematic, tiles),
    ensures
        grid_one_sided(schematic, tiles.update(i, Some(v))),
{
    let n = CHUNK_TILE_LENGTH as int;
    let t2 = tiles.update(i, Some(v));
    lemma_refine_member(schematic, tiles, doms[i], i, v);
    assert forall|p: int| 0 <= p < CHUNK_CELLS implies {
        &&& (p / n + 1 < n && t2[p] is Some && (#[trigger] t2[p + n]) is Some) ==> (schematic.allows(
            t2[p]->0,
            Direction::Right,
            t2[p + n]->0,
        ) || schematic.allows(t2[p + n]->0, Direction::Left, t2[p]->0))
        &&& (p % n + 1 < n && t2[p] is Some && (#[trigger] t2[p + 1]) is Some) ==> (schematic.allows(
            t2[p]->0,
            Direction::Up,
            t2[p + 1]->0,
        ) || schematic.allows(t2[p + 1]->0, Direction::Down, t2[p]->0))
    } by {
        if p / n + 1 < n && t2[p] is Some && t2[p + n] is Some {
            if p + n == i {
                assert(i / n == p / n + 1);
            } else if p != i {
                assert(tiles[p + n] is Some);
            }
        }
        if p % n + 1 < n && t2[p] is Some && t2[p + 1] is Some {
            if p + 1 == i {
                assert(i % n == p % n + 1);
            } else if p != i {
                assert(tiles[p + 1] is Some);
            }
        }
    }
}

proof fn lemma_run_one_sided(
    schematic: SchematicAsset,
    hash: u64,
    tiles: Seq<Option<u8>>,
    doms: Seq<Seq<u8>>,
    fuel: nat,
)
    requires
        tiles.len() == CHUNK_CELLS,
        doms.len() == CHUNK_CELLS,
        grid_one_sided(schematic, tiles),
    ensures
        grid_one_sided(schematic, collapse_from(schematic, hash, tiles, doms, fuel)),
    decreases fuel,
{
    let d = propagate(schematic, tiles, doms);
    if let Some(i) = lowest_entropy(d) {
        if fuel > 0 {
            lemma_selected(d, i);
            lemma_pick_member(d[i], hash);
            let v = pick(d[i], hash);
            assert(tiles[i] is None);
            lemma_step_one_sided(schematic, tiles, doms, i, v);
            lemma_run_one_sided(schematic, hash, tiles.update(i, Some(v)), d, (fuel - 1) as nat);
        }
    }
}

/// For any ruleset, every pair of 4-adjacent resolved cells of a generated
/// interior satisfies the adjacency rules in at least one direction: the cell
/// resolved later is allowed by the one resolved earlier.
pub proof fn lemma_interior_adjacency_one_sided(
    schematic: SchematicAsset,
    world_seed: u64,
    coords: ChunkCoords,
)
    ensures
        grid_one_sided(schematic, generated(schematic, world_seed, coords)),
{
    let h = crate::entropy::chunk_hash(world_seed, coords);
    let t0 = seeded_tiles(schematic, h);
    let n = CHUNK_TILE_LENGTH as int;
    assert forall|p: int| 0 <= p < CHUNK_CELLS implies {
        &&& (p / n + 1 < n && t0[p] is Some && (#[trigger] t0[p + n]) is Some) ==> (schematic.allows(
            t0[p]->0,
            Direction::Right,
            t0[p + n]->0,
        ) || schematic.allows(t0[p + n]->0, Direction::Left, t0[p]->0))
        &&& (p % n + 1 < n && t0[p] is Some && (#[trigger] t0[p + 1]) is Some) ==> (schematic.allows(
            t0[p]->0,
            Direction::Up,
            t0[p + 1]->0,
        ) || schematic.allows(t0[p + 1]->0, Direction::Down, t0[p]->0))
    } by {}
    lemma_run_one_sided(schematic, h, t0, full_domains(schematic), open_count(t0));
}

} // verus!

use vstd::prelude::*;

use rand::{Rng, SeedableRng};
use std::collections::hash_map::DefaultHasher;
use std::hash::Hasher;
use vstd::std_specs::hash::DefaultHasherAdditionalSpecFns;

use crate::components::Direction;
use crate::coords::ChunkCoords;
use crate::schematic::SchematicAsset;

verus! {

broadcast use vstd::seq_lib::group_seq_properties;

/// The value drawn below `bound` by a `StdRng` freshly seeded with `seed`.
pub uninterp spec fn seeded_draw(seed: u64, bound: u64) -> u64;

/// Relies on rand's `StdRng::seed_from_u64` and `Rng::gen_range`: a generator
/// seeded from `seed` yields its first value in `0..bound`; the value depends
/// on the two arguments alone, and `gen_range` panics only on an empty range.
#[verifier::external_body]
fn draw_below(seed: u64, bound: u64) -> (r: u64)
    requires
        bound > 0,
    ensures
        r < bound,
        r == seeded_draw(seed, bound),
{
    rand::rngs::StdRng::seed_from_u64(seed).gen_range(0..bound)
}

/// The element of `dom` chosen by a draw seeded with `hash`. The draw is
/// below the length of `dom`, so taking the remainder leaves it unchanged; it
/// only keeps the index in range for every value of the name.
pub open spec fn pick(dom: Seq<u8>, hash: u64) -> u8 {
    dom[(seeded_draw(hash, dom.len() as u64) as int) % (dom.len() as int)]
}

/// Draws an element of `dom` uniformly, from a generator seeded with `hash`.
pub fn pick_from(dom: &Vec<u8>, hash: u64) -> (r: u8)
    requires
        0 < dom@.len(),
    ensures
        r == pick(dom@, hash),
        dom@.contains(r),
{
    let k = draw_below(hash, dom.len() as u64);
    proof {
        vstd::arithmetic::div_mod::lemma_small_mod(k as nat, dom@.len() as nat);
    }
    dom[k as usize]
}

/// The `n` low bytes of `u`, least significant first.
pub open spec fn le_bytes(u: nat, n: nat) -> Seq<u8>
    decreases n,
{
    if n == 0 {
        Seq::empty()
    } else {
        seq![(u % 256) as u8] + le_bytes(u / 256, (n - 1) as nat)
    }
}

/// The integer that identifies a chunk's random stream: the coordinate sum
/// plus the world seed, wrapping on overflow. Chunks whose coordinates have
/// the same sum share it.
pub open spec fn hash_key(world_seed: u64, coords: ChunkCoords) -> i64 {
    coords.0.wrapping_add(coords.1).wrapping_add(world_seed as i64)
}

/// The chunk hash: the default hasher applied to the little-endian bytes of
/// the hash key.
pub open spec fn chunk_hash(world_seed: u64, coords: ChunkCoords) -> u64 {
    DefaultHasher::spec_finish(seq![le_bytes(hash_key(world_seed, coords) as u64 as nat, 8)])
}

/// Computes the chunk hash of `coords` under `world_seed`.
pub fn get_hash(world_seed: u64, coords: &ChunkCoords) -> (r: u64)
    ensures
        r == chunk_hash(world_seed, *coords),
{
    let key: i64 = coords.0.wrapping_add(coords.1).wrapping_add(world_seed as i64);
    let mut u: u64 = key as u64;
    let mut bytes: Vec<u8> = Vec::new();
    let mut i: usize = 0;
    while i < 8
        invariant
            0 <= i <= 8,
            bytes@ + le_bytes(u as nat, (8 - i) as nat) == le_bytes(key as u64 as nat, 8),
        decreases 8 - i,
    {
        let ghost rest = le_bytes(u as nat / 256, (8 - i - 1) as nat);
        assert(le_bytes(u as nat, (8 - i) as nat) == seq![(u as nat % 256) as u8] + rest);
        let ghost before = bytes@;
        bytes.push((u % 256) as u8);
        assert(bytes@ + rest =~= before + (seq![(u as nat % 256) as u8] + rest));
        u = u / 256;
        i = i + 1;
    }
    assert(bytes@ =~= le_bytes(key as u64 as nat, 8));
    let mut hasher = DefaultHasher::new();
    hasher.write(bytes.as_slice());
    hasher.finish()
}

/// Whether cell `i` has a smallest nonzero domain, and is the first such cell.
pub open spec fn is_lowest(doms: Seq<Seq<u8>>, i: int) -> bool {
    &&& 0 <= i < doms.len()
    &&& doms[i].len() > 0
    &&& forall|j: int| 0 <= j < doms.len() && doms[j].len() > 0 ==> doms[i].len() <= #[trigger] doms[j].len()
    &&& forall|j: int| 0 <= j < i && doms[j].len() > 0 ==> doms[i].len() < #[trigger] doms[j].len()
}

/// Whether some cell still has a nonzero domain.
pub open spec fn has_open(doms: Seq<Seq<u8>>) -> bool {
    exists|j: int| 0 <= j < doms.len() && (#[trigger] doms[j]).len() > 0
}

/// The cell selected for collapse: the first in scan order whose domain is
/// smallest among the nonzero ones; `None` once every domain is empty.
pub open spec fn lowest_entropy(doms: Seq<Seq<u8>>) -> Option<int> {
    if has_open(doms) {
        Some(choose|i: int| is_lowest(doms, i))
    } else {
        None
    }
}

/// The selected cell is unique.
pub proof fn lemma_lowest_unique(doms: Seq<Seq<u8>>, i: int, j: int)
    requires
        is_lowest(doms, i),
        is_lowest(doms, j),
    ensures
        i == j,
{
    if i < j {
        assert(doms[j].len() < doms[i].len());
    } else if j < i {
        assert(doms[i].len() < doms[j].len());
    }
}

/// The domains of a vector of domains.
pub open spec fn domains_view(doms: Seq<Vec<u8>>) -> Seq<Seq<u8>> {
    Seq::new(doms.len(), |i: int| doms[i]@)
}

/// Scans the domains in order for the first smallest nonzero one.
pub fn find_lowest_entropy(doms: &Vec<Vec<u8>>) -> (r: Option<usize>)
    ensures
        match r {
            Some(i) => is_lowest(domains_view(doms@), i as int) && lowest_entropy(
                domains_view(doms@),
            ) == Some(i as int),
            None => lowest_entropy(domains_view(doms@)) is None,
        },
{
    let ghost dv = domains_view(doms@);
    let mut index: Option<usize> = None;
    let mut lowest: usize = 0;
    let mut i: usize = 0;
    while i < doms.len()
        invariant
            dv == domains_view(doms@),
            0 <= i <= doms@.len(),
            match index {
                Some(k) => k < i && lowest == dv[k as int].len() && lowest > 0 && (forall|j: int|
                    0 <= j < i && dv[j].len() > 0 ==> lowest <= #[trigger] dv[j].len()) && (forall|
                    j: int,
                |
                    0 <= j < k && dv[j].len() > 0 ==> lowest < #[trigger] dv[j].len()),
                None => lowest == 0 && forall|j: int| 0 <= j < i ==> (#[trigger] dv[j]).len() == 0,
            },
        decreases doms@.len() - i,
    {
        let n = doms[i].len();
        assert(n == dv[i as int].len());
        if n > 0 && (lowest == 0 || n < lowest) {
            lowest = n;
            index = Some(i);
        }
        i = i + 1;
    }
    match index {
        Some(k) => {
            assert(is_lowest(dv, k as int));
            assert(has_open(dv));
            let ghost c = choose|i: int| is_lowest(dv, i);
            proof {
                lemma_lowest_unique(dv, c, k as int);
            }
        },
        None => {
            assert(!has_open(dv));
        },
    }
    index
}

/// Keeps the identifiers of `dom` that may stand on side `d` of tile `t`.
pub fn restrict(dom: &Vec<u8>, schematic: &SchematicAsset, t: u8, d: Direction) -> (r: Vec<u8>)
    requires
        SchematicAsset::keys_unique(schematic.tiles@),
    ensures
        r@ == dom@.filter(schematic.allowed_by(t, d)),
{
    let mut out: Vec<u8> = Vec::new();
    let mut k: usize = 0;
    while k < dom.len()
        invariant
            0 <= k <= dom@.len(),
            SchematicAsset::keys_unique(schematic.tiles@),
            out@ == dom@.subrange(0, k as int).filter(schematic.allowed_by(t, d)),
        decreases dom@.len() - k,
    {
        let b = dom[k];
        proof {
            assert(dom@.subrange(0, k + 1) =~= dom@.subrange(0, k as int).push(b));
            dom@.subrange(0, k as int).lemma_filter_push(b, schematic.allowed_by(t, d));
        }
        if schematic.permits(t, d, b) {
            out.push(b);
        }
        k = k + 1;
    }
    assert(dom@.subrange(0, dom@.len() as int) =~= dom@);
    out
}

/// The number of unresolved cells.
pub open spec fn open_count(s: Seq<Option<u8>>) -> nat
    decreases s.len(),
{
    if s.len() == 0 {
        0
    } else {
        open_count(s.drop_last()) + if s.last() is None {
            1nat
        } else {
            0nat
        }
    }
}

/// Resolving an open cell leaves one fewer open cell.
pub proof fn lemma_open_count_update(s: Seq<Option<u8>>, i: int, v: u8)
    requires
        0 <= i < s.len(),
        s[i] is None,
    ensures
        open_count(s.update(i, Some(v))) + 1 == open_count(s),
    decreases s.len(),
{
    let t = s.update(i, Some(v));
    if i == s.len() - 1 {
        assert(t.drop_last() =~= s.drop_last());
    } else {
        assert(t.drop_last() =~= s.drop_last().update(i, Some(v)));
        lemma_open_count_update(s.drop_last(), i, v);
    }
}

} // verus!

use vstd::prelude::*;

use vstd::arithmetic::div_mod::{lemma_fundamental_div_mod, lemma_fundamental_div_mod_converse};

use crate::wfc::CHUNK_TILE_LENGTH;

verus! {

/// A chunk's origin in world units.
#[derive(Clone, Copy, Debug, PartialEq, Eq, Structural)]
pub struct ChunkCoords(pub i64, pub i64);

/// Distance in world units between the origins of two adjacent chunks: the
/// interior plus the one-tile seam that the perimeter rings cover.
pub open spec fn chunk_extent_of(tile_size: int) -> int {
    (CHUNK_TILE_LENGTH as int + 1) * tile_size
}

/// The chunk extent for tiles of `tile_size` world units.
pub fn chunk_extent(tile_size: i64) -> (r: i64)
    requires
        0 < tile_size <= i64::MAX / 16,
    ensures
        r as int == chunk_extent_of(tile_size as int),
        r > 0,
{
    let n: i64 = CHUNK_TILE_LENGTH as i64 + 1;
    assert(0 < n * tile_size <= i64::MAX) by (nonlinear_arith)
        requires
            n == 9,
            0 < tile_size <= i64::MAX / 16,
    ;
    n * tile_size
}

proof fn lemma_index_bounds(k: int, w: int)
    requires
        0 <= k < w * w,
        w > 0,
    ensures
        0 <= k / w < w,
        0 <= k % w < w,
        k == w * (k / w) + k % w,
{
    lemma_fundamental_div_mod(k, w);
    vstd::arithmetic::div_mod::lemma_mod_bound(k, w);
    assert(0 <= k / w < w) by (nonlinear_arith)
        requires
            k == w * (k / w) + k % w,
            0 <= k % w < w,
            0 <= k < w * w,
            w > 0,
    ;
}

/// The origin of the chunk square `[origin, origin + extent)` holding
/// coordinate `p`.
pub open spec fn chunk_origin(p: int, extent: int) -> int {
    (p / extent) * extent
}

/// Whether the chunk origin of `p` is an `i64`.
pub open spec fn origin_fits(p: int, extent: int) -> bool {
    i64::MIN <= chunk_origin(p, extent) <= i64::MAX
}

/// Floor division by a positive divisor.
fn floor_div(x: i64, e: i64) -> (q: i64)
    requires
        e > 0,
    ensures
        q as int == x as int / e as int,
{
    if x >= 0 {
        let q = ((x as u64) / (e as u64)) as i64;
        proof {
            lemma_fundamental_div_mod(x as int, e as int);
        }
        q
    } else {
        let m: u64 = (-(x + 1)) as u64;
        let q0: u64 = m / (e as u64);
        proof {
            lemma_fundamental_div_mod(m as int, e as int);
            let r0 = m as int % e as int;
            assert(x as int == (-(q0 as int) - 1) * e as int + (e as int - r0 - 1)) by (nonlinear_arith)
                requires
                    m as int == q0 as int * e as int + r0,
                    m as int == -(x as int) - 1,
            ;
            lemma_fundamental_div_mod_converse(
                x as int,
                e as int,
                -(q0 as int) - 1,
                e as int - r0 - 1,
            );
        }
        -(q0 as i64) - 1
    }
}

/// The chunk holding world position `pos`: each coordinate floor-divided by
/// the chunk extent and scaled back, so two positions share a chunk exactly
/// when they lie in the same half-open `extent`-sized square.
pub fn chunk_coordinate_of(pos: (i64, i64), extent: i64) -> (r: ChunkCoords)
    requires
        extent > 0,
        origin_fits(pos.0 as int, extent as int),
        origin_fits(pos.1 as int, extent as int),
    ensures
        r.0 as int == chunk_origin(pos.0 as int, extent as int),
        r.1 as int == chunk_origin(pos.1 as int, extent as int),
{
    let qx = floor_div(pos.0, extent);
    let qy = floor_div(pos.1, extent);
    ChunkCoords(qx * extent, qy * extent)
}

/// Side of the visible square, in chunks.
pub open spec fn square_side(radius: int) -> int {
    2 * radius + 1
}

/// The `k`-th visible chunk: columns west to east, and within a column rows
/// south to north, around `center`.
pub open spec fn visible_at(center: ChunkCoords, extent: int, radius: int, k: int) -> ChunkCoords {
    let w = square_side(radius);
    ChunkCoords(
        (center.0 + (k / w - radius) * extent) as i64,
        (center.1 + (k % w - radius) * extent) as i64,
    )
}

/// The chunks within `radius` chunks of `center`, as a square of side
/// `2 * radius + 1`.
pub open spec fn visible_square(center: ChunkCoords, extent: int, radius: int) -> Seq<ChunkCoords> {
    Seq::new(
        (square_side(radius) * square_side(radius)) as nat,
        |k: int| visible_at(center, extent, radius, k),
    )
}

/// Whether every chunk of the square around `center` has `i64` coordinates
/// and the square's size fits in memory.
pub open spec fn square_fits(center: ChunkCoords, extent: int, radius: int) -> bool {
    &&& 0 <= radius
    &&& 0 < extent
    &&& square_side(radius) * square_side(radius) <= usize::MAX
    &&& i64::MIN <= center.0 - radius * extent
    &&& center.0 + radius * extent <= i64::MAX
    &&& i64::MIN <= center.1 - radius * extent
    &&& center.1 + radius * extent <= i64::MAX
}

/// The chunks that must exist around the focus position `pos` for render
/// distance `radius`.
pub fn visible_coordinates(pos: (i64, i64), extent: i64, radius: i64) -> (r: Vec<ChunkCoords>)
    requires
        view_fits(pos, extent as int, radius as int),
    ensures
        r@ == visible_square(chunk_coordinate_of_spec(pos, extent as int), extent as int, radius as int),
{
    let center = chunk_coordinate_of(pos, extent);
    let ghost c = center;
    assert(c == chunk_coordinate_of_spec(pos, extent as int));
    let ghost w = square_side(radius as int);
    let ghost target = visible_square(c, extent as int, radius as int);
    let mut out: Vec<ChunkCoords> = Vec::new();
    assert(radius < i64::MAX) by (nonlinear_arith)
        requires
            (2 * radius + 1) * (2 * radius + 1) <= usize::MAX,
            usize::MAX <= u64::MAX,
            radius >= 0,
    ;
    let mut dx: i64 = -radius;
    assert((dx + radius) * w == 0) by (nonlinear_arith)
        requires
            dx == -radius,
    ;
    while dx <= radius
        invariant
            radius < i64::MAX,
            center == c,
            square_fits(c, extent as int, radius as int),
            w == square_side(radius as int),
            target == visible_square(c, extent as int, radius as int),
            -radius <= dx <= radius + 1,
            out@.len() == (dx + radius) * w,
            forall|k: int| 0 <= k < out@.len() ==> #[trigger] out@[k] == target[k],
        decreases radius + 1 - dx,
    {
        let ghost base = out@.len();
        proof {
            assert((dx + radius + 1) * w <= w * w) by (nonlinear_arith)
                requires
                    dx <= radius,
                    w == 2 * radius + 1,
                    radius >= 0,
            ;
        }
        let mut dy: i64 = -radius;
        while dy <= radius
            invariant
                radius < i64::MAX,
                center == c,
                square_fits(c, extent as int, radius as int),
                w == square_side(radius as int),
                target == visible_square(c, extent as int, radius as int),
                -radius <= dx <= radius,
                -radius <= dy <= radius + 1,
                base == (dx + radius) * w,
                (dx + radius + 1) * w <= w * w,
                out@.len() == base + dy + radius,
                forall|k: int| 0 <= k < out@.len() ==> #[trigger] out@[k] == target[k],
            decreases radius + 1 - dy,
        {
            let k = out.len();
            proof {
                assert(dx * extent <= radius * extent && -(radius * extent) <= dx * extent)
                    by (nonlinear_arith)
                    requires
                        -radius <= dx <= radius,
                        extent > 0,
                ;
                assert(dy * extent <= radius * extent && -(radius * extent) <= dy * extent)
                    by (nonlinear_arith)
                    requires
                        -radius <= dy <= radius,
                        extent > 0,
                ;
                assert(radius * extent <= i64::MAX);
                assert(c.0 + dx * extent <= i64::MAX && c.0 + dx * extent >= i64::MIN);
                assert(c.1 + dy * extent <= i64::MAX && c.1 + dy * extent >= i64::MIN);
                lemma_fundamental_div_mod_converse(
                    k as int,
                    w,
                    dx + radius,
                    dy + radius,
                );
            }
            let item = ChunkCoords(center.0 + dx * extent, center.1 + dy * extent);
            assert(k < w * w) by (nonlinear_arith)
                requires
                    k == (dx + radius) * w + dy + radius,
                    dy + radius < w,
                    (dx + radius + 1) * w <= w * w,
            ;
            assert(target.len() == w * w);
            assert(target[k as int] == visible_at(c, extent as int, radius as int, k as int));
            assert(item == target[k as int]);
            out.push(item);
            dy = dy + 1;
        }
        dx = dx + 1;
        proof {
            assert(out@.len() == (dx + radius) * w) by (nonlinear_arith)
                requires
                    out@.len() == base + w,
                    base == (dx - 1 + radius) * w,
            ;
        }
    }
    proof {
        assert(out@.len() == w * w) by (nonlinear_arith)
            requires
                out@.len() == (dx + radius) * w,
                dx == radius + 1,
                w == 2 * radius + 1,
        ;
    }
    assert(out@ =~= target);
    out
}

/// Whether `c` lies on the grid of chunk origins within `radius` chunk steps
/// of `center` along each axis.
pub open spec fn in_square(center: ChunkCoords, extent: int, radius: int, c: ChunkCoords) -> bool {
    &&& -(radius * extent) <= c.0 - center.0 <= radius * extent
    &&& -(radius * extent) <= c.1 - center.1 <= radius * extent
    &&& (c.0 - center.0) % extent == 0
    &&& (c.1 - center.1) % extent == 0
}

/// The chunk holding `pos`, as a spec value.
pub open spec fn chunk_coordinate_of_spec(pos: (i64, i64), extent: int) -> ChunkCoords {
    ChunkCoords(chunk_origin(pos.0 as int, extent) as i64, chunk_origin(pos.1 as int, extent) as i64)
}

/// Whether the visible square around `pos` can be computed: the centre and
/// every chunk of the square have `i64` coordinates, and the square's size
/// fits in memory.
pub open spec fn view_fits(pos: (i64, i64), extent: int, radius: int) -> bool {
    &&& extent > 0
    &&& origin_fits(pos.0 as int, extent)
    &&& origin_fits(pos.1 as int, extent)
    &&& square_fits(chunk_coordinate_of_spec(pos, extent), extent, radius)
}

/// Tests whether the visible square around `pos` can be computed.
pub fn check_view_fits(pos: (i64, i64), extent: i64, radius: i64) -> (r: bool)
    ensures
        r == view_fits(pos, extent as int, radius as int),
{
    if extent <= 0 || radius < 0 || radius > 0x7fff_ffff {
        proof {
            if extent > 0 && radius > 0x7fff_ffff {
                assert(square_side(radius as int) * square_side(radius as int) > u64::MAX) by (nonlinear_arith)
                    requires
                        radius > 0x7fff_ffff,
                ;
            }
        }
        return false;
    }
    let qx = floor_div(pos.0, extent) as i128;
    let qy = floor_div(pos.1, extent) as i128;
    let e = extent as i128;
    let r = radius as i128;
    proof {
        assert(-0x8000_0000_0000_0000 * 0x7fff_ffff_ffff_ffff <= qx * e <= 0x8000_0000_0000_0000 * 0x7fff_ffff_ffff_ffff) by (nonlinear_arith)
            requires
                -0x8000_0000_0000_0000 <= qx <= 0x7fff_ffff_ffff_ffff,
                0 < e <= 0x7fff_ffff_ffff_ffff,
        ;
        assert(-0x8000_0000_0000_0000 * 0x7fff_ffff_ffff_ffff <= qy * e <= 0x8000_0000_0000_0000 * 0x7fff_ffff_ffff_ffff) by (nonlinear_arith)
            requires
                -0x8000_0000_0000_0000 <= qy <= 0x7fff_ffff_ffff_ffff,
                0 < e <= 0x7fff_ffff_ffff_ffff,
        ;
        assert(0 <= r * e <= 0x7fff_ffff * 0x7fff_ffff_ffff_ffff) by (nonlinear_arith)
            requires
                0 <= r <= 0x7fff_ffff,
                0 < e <= 0x7fff_ffff_ffff_ffff,
        ;
    }
    let ox = qx * e;
    let oy = qy * e;
    let min = i64::MIN as i128;
    let max = i64::MAX as i128;
    if ox < min || ox > max || oy < min || oy > max {
        return false;
    }
    let span = r * e;
    let side = (2 * radius + 1) as u128;
    proof {
        assert(side * side <= 0x1_0000_0000 * 0x1_0000_0000) by (nonlinear_arith)
            requires
                0 < side <= 0x1_0000_0000,
        ;
    }
    let cells = side * side;
    let fits = ox - span >= min && ox + span <= max && oy - span >= min && oy + span <= max
        && cells <= usize::MAX as u128;
    proof {
        assert(cells == square_side(radius as int) * square_side(radius as int));
    }
    fits
}

/// The visible set has `(2R+1)²` entries, all distinct, and it is exactly the
/// square of chunks within `R` chunk steps of the centre in each axis.
pub proof fn lemma_visible_square(center: ChunkCoords, extent: int, radius: int)
    requires
        square_fits(center, extent, radius),
    ensures
        visible_square(center, extent, radius).len() == square_side(radius) * square_side(radius),
        forall|i: int, j: int|
            0 <= i < j < visible_square(center, extent, radius).len() ==> #[trigger] visible_square(
                center,
                extent,
                radius,
            )[i] != #[trigger] visible_square(center, extent, radius)[j],
        forall|dx: int, dy: int|
            -radius <= dx <= radius && -radius <= dy <= radius ==> #[trigger] visible_square(
                center,
                extent,
                radius,
            ).contains(ChunkCoords((center.0 + dx * extent) as i64, (center.1 + dy * extent) as i64)),
        forall|k: int|
            0 <= k < visible_square(center, extent, radius).len() ==> in_square(
                center,
                extent,
                radius,
                #[trigger] visible_square(center, extent, radius)[k],
            ),
{
    let s = visible_square(center, extent, radius);
    let w = square_side(radius);
    assert forall|k: int| 0 <= k < s.len() implies {
        let dx = k / w - radius;
        let dy = k % w - radius;
        &&& -radius <= dx <= radius
        &&& -radius <= dy <= radius
        &&& (#[trigger] s[k]).0 as int == center.0 + dx * extent
        &&& s[k].1 as int == center.1 + dy * extent
    } by {
        lemma_index_bounds(k, w);
        let dx = k / w - radius;
        let dy = k % w - radius;
        assert(-radius <= dx <= radius);
        assert(-radius <= dy <= radius);
        assert(dx * extent <= radius * extent && -(radius * extent) <= dx * extent) by (nonlinear_arith)
            requires
                -radius <= dx <= radius,
                extent > 0,
        ;
        assert(dy * extent <= radius * extent && -(radius * extent) <= dy * extent) by (nonlinear_arith)
            requires
                -radius <= dy <= radius,
                extent > 0,
        ;
        assert(s[k] == visible_at(center, extent, radius, k));
        assert(s[k].0 as int == center.0 + dx * extent);
        assert(s[k].1 as int == center.1 + dy * extent);
    }
    assert forall|i: int, j: int| 0 <= i < j < s.len() implies #[trigger] s[i] != #[trigger] s[j] by {
        if s[i] == s[j] {
            assert((i / w - radius) * extent == (j / w - radius) * extent);
            assert((i % w - radius) * extent == (j % w - radius) * extent);
            assert(i / w == j / w) by (nonlinear_arith)
                requires
                    (i / w - radius) * extent == (j / w - radius) * extent,
                    extent > 0,
            ;
            assert(i % w == j % w) by (nonlinear_arith)
                requires
                    (i % w - radius) * extent == (j % w - radius) * extent,
                    extent > 0,
            ;
            lemma_fundamental_div_mod(i, w);
            lemma_fundamental_div_mod(j, w);
        }
    }
    assert forall|dx: int, dy: int| -radius <= dx <= radius && -radius <= dy <= radius implies #[trigger] s.contains(
        ChunkCoords((center.0 + dx * extent) as i64, (center.1 + dy * extent) as i64),
    ) by {
        let k = (dx + radius) * w + (dy + radius);
        assert(0 <= k < w * w) by (nonlinear_arith)
            requires
                0 <= dx + radius < w,
                0 <= dy + radius < w,
                k == (dx + radius) * w + (dy + radius),
        ;
        lemma_fundamental_div_mod_converse(k, w, dx + radius, dy + radius);
        assert(s[k] == ChunkCoords((center.0 + dx * extent) as i64, (center.1 + dy * extent) as i64));
    }
    assert forall|k: int| 0 <= k < s.len() implies in_square(center, extent, radius, #[trigger] s[k]) by {
        lemma_index_bounds(k, w);
        let dx = k / w - radius;
        let dy = k % w - radius;
        vstd::arithmetic::div_mod::lemma_mod_multiples_basic(dx, extent);
        vstd::arithmetic::div_mod::lemma_mod_multiples_basic(dy, extent);
        assert(dx * extent <= radius * extent && -(radius * extent) <= dx * extent) by (nonlinear_arith)
            requires
                -radius <= dx <= radius,
                extent > 0,
        ;
        assert(dy * extent <= radius * extent && -(radius * extent) <= dy * extent) by (nonlinear_arith)
            requires
                -radius <= dy <= radius,
                extent > 0,
        ;
    }
}

} // verus!

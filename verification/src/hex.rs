//! Axial hexagon coordinates, the hexagonal regions around the origin, and
//! the neighbour and ring computations of `hexx`.

use vstd::prelude::*;

verus! {

/// Axial coordinates of a hexagon (the third cubic coordinate is `-x - y`).
#[derive(PartialEq, Eq, Clone, Copy, Debug, Hash, Structural)]
pub struct Hex {
    pub x: i32,
    pub y: i32,
}

/// The largest map radius the library works with.
pub const MAX_RADIUS: u32 = 1000;

/// Coordinates that `hexx` looks up in a map around the origin without
/// overflow: its distance from the origin negates both coordinates and
/// adds them.
pub open spec fn coords_ok(h: Hex) -> bool {
    h.x > i32::MIN && h.y > i32::MIN && i32::MIN <= h.x + h.y <= i32::MAX
}

/// Coordinates whose six neighbours `hexx` computes without overflow: each
/// coordinate can go one up and one down.
pub open spec fn neighbors_fit(h: Hex) -> bool {
    i32::MIN < h.x < i32::MAX && i32::MIN < h.y < i32::MAX
}

pub open spec fn abs(v: int) -> int {
    if v < 0 {
        -v
    } else {
        v
    }
}

/// Distance of `h` from the origin, in hexagon steps.
pub open spec fn hex_len(h: Hex) -> int {
    let a = abs(h.x as int);
    let b = abs(h.y as int);
    let c = abs(h.x + h.y);
    if a >= b && a >= c {
        a
    } else if b >= a && b >= c {
        b
    } else {
        c
    }
}

/// All hexagons at most `r` steps from the origin.
pub open spec fn hexagon(r: int) -> Set<Hex> {
    Set::new(|h: Hex| hex_len(h) <= r)
}

/// The hexagon at axial coordinates `(x, y)`.
pub open spec fn mk_hex(x: int, y: int) -> Hex {
    Hex { x: x as i32, y: y as i32 }
}

pub open spec fn max(a: int, b: int) -> int {
    if a >= b {
        a
    } else {
        b
    }
}

pub open spec fn min(a: int, b: int) -> int {
    if a <= b {
        a
    } else {
        b
    }
}

/// Smallest `x` in row `y` of the hexagon of radius `r`.
pub open spec fn row_first(r: int, y: int) -> int {
    max(-r, -y - r)
}

/// Largest `x` in row `y` of the hexagon of radius `r`.
pub open spec fn row_last(r: int, y: int) -> int {
    min(r, r - y)
}

/// Row `y` of the hexagon of radius `r`, by increasing `x`.
pub open spec fn hexagon_row(r: int, y: int) -> Seq<Hex> {
    Seq::new((row_last(r, y) - row_first(r, y) + 1) as nat, |i: int| mk_hex(row_first(r, y) + i, y))
}

/// Rows `y..=r` of the hexagon of radius `r`, one after the other.
pub open spec fn hexagon_rows_from(r: int, y: int) -> Seq<Hex>
    decreases r + 1 - y,
{
    if y > r {
        seq![]
    } else {
        hexagon_row(r, y) + hexagon_rows_from(r, y + 1)
    }
}

/// The hexagon of radius `r` row by row: rows by increasing `y`, each by
/// increasing `x`. This is the order in which `hexx`'s `HexagonalMap`
/// stores and visits its cells.
pub open spec fn hexagon_order(r: int) -> Seq<Hex> {
    hexagon_rows_from(r, -r)
}

/// What `hexagon_rows_from` holds.
proof fn lemma_rows_from_contains(r: int, y: int, h: Hex)
    requires
        0 <= r <= MAX_RADIUS,
        -r <= y,
    ensures
        hexagon_rows_from(r, y).contains(h) <==> (y <= h.y <= r && row_first(r, h.y as int) <= h.x
            <= row_last(r, h.y as int)),
    decreases r + 1 - y,
{
    if y > r {
    } else {
        let row = hexagon_row(r, y);
        let rest = hexagon_rows_from(r, y + 1);
        lemma_rows_from_contains(r, y + 1, h);
        if y <= h.y <= r && row_first(r, h.y as int) <= h.x <= row_last(r, h.y as int) {
            if h.y == y {
                let i = h.x - row_first(r, y);
                assert(row[i] == h);
                assert((row + rest)[i] == h);
            } else {
                let k = choose|k: int| 0 <= k < rest.len() && rest[k] == h;
                assert((row + rest)[row.len() + k] == h);
            }
        }
        if (row + rest).contains(h) {
            let k = choose|k: int| 0 <= k < (row + rest).len() && (row + rest)[k] == h;
            if k < row.len() {
                assert(row[k] == h);
            } else {
                assert(rest[k - row.len()] == h);
            }
        }
    }
}

/// `hexagon_rows_from` lists no hexagon twice, and only rows `y..=r`.
proof fn lemma_rows_from_no_duplicates(r: int, y: int)
    requires
        0 <= r <= MAX_RADIUS,
        -r <= y,
    ensures
        hexagon_rows_from(r, y).no_duplicates(),
    decreases r + 1 - y,
{
    if y <= r {
        let row = hexagon_row(r, y);
        let rest = hexagon_rows_from(r, y + 1);
        lemma_rows_from_no_duplicates(r, y + 1);
        assert forall|i: int, j: int|
            0 <= i < (row + rest).len() && 0 <= j < (row + rest).len() && i != j implies (row
                + rest)[i] != (row + rest)[j] by {
            if i >= row.len() && j < row.len() {
                lemma_rows_from_contains(r, y + 1, rest[i - row.len()]);
                assert(rest.contains(rest[i - row.len()]));
            }
            if j >= row.len() && i < row.len() {
                lemma_rows_from_contains(r, y + 1, rest[j - row.len()]);
                assert(rest.contains(rest[j - row.len()]));
            }
        }
    }
}

/// The hexagon of radius `r` is finite, and `hexagon_order(r)` lists each of
/// its hexagons exactly once.
pub proof fn lemma_hexagon_order(r: int)
    requires
        0 <= r <= MAX_RADIUS,
    ensures
        hexagon_order(r).no_duplicates(),
        hexagon_order(r).to_set() == hexagon(r),
        hexagon(r).finite(),
        hexagon_order(r).len() == hexagon(r).len(),
{
    lemma_rows_from_no_duplicates(r, -r);
    assert forall|h: Hex| hexagon_order(r).contains(h) <==> hexagon(r).contains(h) by {
        lemma_rows_from_contains(r, -r, h);
    }
    assert(hexagon_order(r).to_set() =~= hexagon(r));
    broadcast use vstd::seq_lib::seq_to_set_is_finite;
    hexagon_order(r).unique_seq_to_set();
}

/// Rows `y..=r` of a hexagon of radius at most 6 hold at most 13 hexagons
/// each.
proof fn lemma_rows_from_len(r: int, y: int)
    requires
        0 <= r <= 6,
        -r <= y,
    ensures
        hexagon_rows_from(r, y).len() <= 13 * (if y > r { 0 } else { r + 1 - y }),
    decreases r + 1 - y,
{
    if y <= r {
        lemma_rows_from_len(r, y + 1);
    }
}

/// A hexagon of radius at most 6 has at most 169 hexagons.
pub proof fn lemma_hexagon_len_bound(r: int)
    requires
        0 <= r <= 6,
    ensures
        hexagon(r).finite(),
        hexagon(r).len() <= 169,
{
    lemma_hexagon_order(r);
    lemma_rows_from_len(r, -r);
}

/// The six offsets from a hexagon to its neighbours, in `hexx`'s order.
pub open spec fn neighbor_offset(k: int) -> (int, int) {
    if k == 0 {
        (1, 0)
    } else if k == 1 {
        (0, 1)
    } else if k == 2 {
        (-1, 1)
    } else if k == 3 {
        (-1, 0)
    } else if k == 4 {
        (0, -1)
    } else {
        (1, -1)
    }
}

/// The `k`-th neighbour of `h`, for `k` in `0..6`.
pub open spec fn neighbor(h: Hex, k: int) -> Hex {
    mk_hex(h.x + neighbor_offset(k).0, h.y + neighbor_offset(k).1)
}

/// Calls `hexx::Hex::all_neighbors`: the six neighbours of `h`, in order.
#[verifier::external_body]
pub(crate) fn all_neighbors(h: Hex) -> (r: [Hex; 6])
    requires
        neighbors_fit(h),
    ensures
        forall|k: int| 0 <= k < 6 ==> r@[k] == neighbor(h, k),
{
    hexx::Hex::new(h.x, h.y).all_neighbors().map(|n| Hex { x: n.x, y: n.y })
}

/// The steps a ring walks, in `hexx`'s order: it starts east of the
/// centre and goes round counter-clockwise.
pub open spec fn ring_step(k: int) -> (int, int) {
    if k == 0 {
        (-1, 1)
    } else if k == 1 {
        (-1, 0)
    } else if k == 2 {
        (0, -1)
    } else if k == 3 {
        (1, -1)
    } else if k == 4 {
        (1, 0)
    } else {
        (0, 1)
    }
}

/// The `i`-th hexagon of the ring of radius `r` around the origin.
pub open spec fn ring_point(r: int, i: int) -> (int, int)
    decreases i,
{
    if i <= 0 {
        (r, 0)
    } else {
        let p = ring_point(r, i - 1);
        let d = ring_step((i - 1) / r);
        (p.0 + d.0, p.1 + d.1)
    }
}

/// Number of hexagons in the ring of radius `r`.
pub open spec fn ring_len(r: int) -> int {
    if r == 0 {
        1
    } else {
        6 * r
    }
}

/// The ring of radius `r` around the origin, as `hexx` walks it.
pub open spec fn ring(r: int) -> Seq<Hex> {
    Seq::new(ring_len(r) as nat, |i: int| mk_hex(ring_point(r, i).0, ring_point(r, i).1))
}

/// Ring points stay within `r + i` of the start on each axis.
pub proof fn lemma_ring_point_bounds(r: int, i: int)
    requires
        0 <= r,
        0 <= i,
    ensures
        r - i <= ring_point(r, i).0 <= r + i,
        -i <= ring_point(r, i).1 <= i,
    decreases i,
{
    if i > 0 {
        lemma_ring_point_bounds(r, i - 1);
    }
}

/// Calls `hexx::Hex::ring` around `Hex::ZERO`: the ring of radius `r`.
#[verifier::external_body]
pub(crate) fn ring_around_origin(r: u32) -> (res: Vec<Hex>)
    requires
        r <= MAX_RADIUS,
    ensures
        res@ == ring(r as int),
{
    hexx::Hex::ZERO.ring(r).map(|n| Hex { x: n.x, y: n.y }).collect()
}

} // verus!

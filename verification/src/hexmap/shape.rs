//! Growing a random shape cell by cell, and fixing it as the map's shape.

use vstd::prelude::*;

use rand::rngs::StdRng;
use hexx::storage::HexagonalMap;

use crate::hex::{
    all_neighbors, coords_ok, neighbors_fit, hexagon, hexagon_order, lemma_hexagon_order, neighbor, Hex,
    MAX_RADIUS,
};
use crate::hexmap::{MapError, MapSize, RawTileState, MIN_HEX_NEIGHBORS};
use crate::random::choose_hex;
use crate::storage::{
    raw_cells, raw_map_entries, raw_map_filled, raw_map_get, raw_map_set, shape_cells,
    shape_map_entries, shape_map_filled, shape_map_get, shape_map_set,
};
use crate::hex::mk_hex;

verus! {

/// The centre of every map.
pub open spec fn origin() -> Hex {
    Hex { x: 0, y: 0 }
}

/// True when the `k`-th neighbour of `h` is a taken cell.
pub open spec fn neighbor_taken(cells: Map<Hex, RawTileState>, h: Hex, k: int) -> bool {
    cells.dom().contains(neighbor(h, k)) && cells[neighbor(h, k)] == RawTileState::Taken
}

/// Taken cells among the neighbours `k..6` of `h`.
pub open spec fn taken_neighbors_from(cells: Map<Hex, RawTileState>, h: Hex, k: int) -> nat
    decreases 6 - k,
{
    if k >= 6 {
        0
    } else {
        (if neighbor_taken(cells, h, k) {
            1nat
        } else {
            0nat
        }) + taken_neighbors_from(cells, h, k + 1)
    }
}

/// Number of taken neighbours of `h`.
pub open spec fn taken_neighbor_count(cells: Map<Hex, RawTileState>, h: Hex) -> nat {
    taken_neighbors_from(cells, h, 0)
}

/// True when `x` is one of the six neighbours of `h`.
pub open spec fn is_neighbor(h: Hex, x: Hex) -> bool {
    exists|k: int| 0 <= k < 6 && x == neighbor(h, k)
}

/// A cell the shape may grow into: free to take and, unless the rule is
/// overruled, next to at least `MIN_HEX_NEIGHBORS` taken cells.
pub open spec fn eligible(cells: Map<Hex, RawTileState>, h: Hex, overrule: bool) -> bool {
    &&& cells.dom().contains(h)
    &&& cells[h] == RawTileState::FreeToTake
    &&& (overrule || taken_neighbor_count(cells, h) >= MIN_HEX_NEIGHBORS)
}

/// True when no cell is eligible: the shape cannot grow.
pub open spec fn stuck(cells: Map<Hex, RawTileState>, overrule: bool) -> bool {
    forall|h: Hex| !#[trigger] eligible(cells, h, overrule)
}

/// The cells after the shape grows into `h`: `h` is taken and its unknown
/// neighbours become free to take.
pub open spec fn grow(cells: Map<Hex, RawTileState>, h: Hex) -> Map<Hex, RawTileState> {
    Map::new(
        |x: Hex| cells.dom().contains(x),
        |x: Hex|
            if x == h {
                RawTileState::Taken
            } else if is_neighbor(h, x) && cells[x] == RawTileState::Unknown {
                RawTileState::FreeToTake
            } else {
                cells[x]
            },
    )
}

/// The taken cells.
pub open spec fn taken_cells(cells: Map<Hex, RawTileState>) -> Set<Hex> {
    cells.dom().filter(|h: Hex| cells[h] == RawTileState::Taken)
}

/// The cells of a shape that has not grown yet: the centre is free to take,
/// everything else unknown.
pub open spec fn seed_cells(radius: int) -> Map<Hex, RawTileState> {
    Map::new(
        |h: Hex| hexagon(radius).contains(h),
        |h: Hex|
            if h == origin() {
                RawTileState::FreeToTake
            } else {
                RawTileState::Unknown
            },
    )
}

/// True when `picks`, taken one after another from step `step` on, are each
/// eligible when taken (the neighbour rule is overruled for the first
/// `MIN_HEX_NEIGHBORS` steps).
pub open spec fn valid_picks(cells: Map<Hex, RawTileState>, picks: Seq<Hex>, step: int) -> bool
    decreases picks.len(),
{
    picks.len() == 0 || (eligible(cells, picks[0], step < MIN_HEX_NEIGHBORS) && valid_picks(
        grow(cells, picks[0]),
        picks.drop_first(),
        step + 1,
    ))
}

/// The cells after growing into `picks`, one after another.
pub open spec fn grow_all(cells: Map<Hex, RawTileState>, picks: Seq<Hex>) -> Map<Hex, RawTileState>
    decreases picks.len(),
{
    if picks.len() == 0 {
        cells
    } else {
        grow_all(grow(cells, picks[0]), picks.drop_first())
    }
}

/// Growing into one more pick extends a run of picks.
proof fn lemma_picks_push(cells: Map<Hex, RawTileState>, picks: Seq<Hex>, step: int, h: Hex)
    requires
        valid_picks(cells, picks, step),
        eligible(grow_all(cells, picks), h, step + picks.len() < MIN_HEX_NEIGHBORS),
    ensures
        valid_picks(cells, picks.push(h), step),
        grow_all(cells, picks.push(h)) == grow(grow_all(cells, picks), h),
    decreases picks.len(),
{
    if picks.len() == 0 {
        assert(picks.push(h).drop_first() =~= Seq::<Hex>::empty());
        assert(picks.push(h)[0] == h);
        assert(valid_picks(grow(cells, h), seq![], step + 1));
        assert(grow_all(grow(cells, h), seq![]) == grow(cells, h));
        assert(grow_all(cells, picks) == cells);
    } else {
        assert(picks.push(h).drop_first() =~= picks.drop_first().push(h));
        assert(picks.push(h)[0] == picks[0]);
        lemma_picks_push(grow(cells, picks[0]), picks.drop_first(), step + 1, h);
    }
}

/// True when `picks` starts at the centre and each later pick neighbours an
/// earlier one: cells taken in this order form one connected piece.
pub open spec fn grows_connected(picks: Seq<Hex>) -> bool {
    &&& picks.len() > 0 ==> picks[0] == origin()
    &&& forall|i: int|
        #![trigger picks[i]]
        0 < i < picks.len() ==> exists|j: int, k: int|
            0 <= j < i && 0 <= k < 6 && picks[i] == #[trigger] neighbor(picks[j], k)
}

/// True when the cells `s` form one connected piece grown from the centre:
/// they can be listed from the centre on so that each neighbours an
/// earlier one.
pub open spec fn connected_cells(s: Set<Hex>) -> bool {
    exists|picks: Seq<Hex>| #[trigger] grows_connected(picks) && picks.to_set() == s
}

/// What growing from the seed keeps: the taken cells are those picked so
/// far, and a cell free to take is the untouched centre or a neighbour of
/// a pick.
pub open spec fn frontier_of(cells: Map<Hex, RawTileState>, done: Seq<Hex>) -> bool {
    &&& taken_cells(cells) == done.to_set()
    &&& forall|h: Hex|
        #![trigger cells[h]]
        cells.dom().contains(h) && cells[h] == RawTileState::FreeToTake ==> (done.len() == 0 && h
            == origin()) || exists|j: int, k: int|
            0 <= j < done.len() && 0 <= k < 6 && h == #[trigger] neighbor(done[j], k)
}

/// A connected run of picks stays connected when the next pick is the
/// centre (first) or neighbours an earlier pick.
proof fn lemma_connected_push(done: Seq<Hex>, h: Hex)
    requires
        grows_connected(done),
        (done.len() == 0 && h == origin()) || exists|j: int, k: int|
            0 <= j < done.len() && 0 <= k < 6 && h == #[trigger] neighbor(done[j], k),
    ensures
        grows_connected(done.push(h)),
{
    let done2 = done.push(h);
    assert forall|i: int| 0 < i < done2.len() implies exists|j: int, k: int|
        0 <= j < i && 0 <= k < 6 && #[trigger] done2[i] == #[trigger] neighbor(done2[j], k) by {
        if i < done.len() {
            assert(done2[i] == done[i]);
            let (j, k) = choose|j: int, k: int|
                0 <= j < i && 0 <= k < 6 && done[i] == #[trigger] neighbor(done[j], k);
            assert(done2[j] == done[j]);
        } else {
            let (j, k) = choose|j: int, k: int|
                0 <= j < done.len() && 0 <= k < 6 && h == #[trigger] neighbor(done[j], k);
            assert(done2[j] == done[j]);
        }
    }
}

/// Growing into an eligible cell keeps the frontier, and that cell is the
/// centre (first) or neighbours an earlier pick.
proof fn lemma_frontier_grow(cells: Map<Hex, RawTileState>, done: Seq<Hex>, h: Hex, overrule: bool)
    requires
        cells.dom().finite(),
        eligible(cells, h, overrule),
        frontier_of(cells, done),
    ensures
        frontier_of(grow(cells, h), done.push(h)),
        (done.len() == 0 && h == origin()) || exists|j: int, k: int|
            0 <= j < done.len() && 0 <= k < 6 && h == #[trigger] neighbor(done[j], k),
{
    let next = grow(cells, h);
    let done2 = done.push(h);
    lemma_grow_takes_one(cells, h, overrule);
    assert(cells[h] == RawTileState::FreeToTake);
    done.lemma_push_to_set_commute(h);
    assert(taken_cells(next) =~= done2.to_set());
    assert forall|x: Hex|
        next.dom().contains(x) && #[trigger] next[x] == RawTileState::FreeToTake implies (done2.len()
        == 0 && x == origin()) || exists|j: int, k: int|
        0 <= j < done2.len() && 0 <= k < 6 && x == #[trigger] neighbor(done2[j], k) by {
        if is_neighbor(h, x) && cells[x] == RawTileState::Unknown {
            let k = choose|k: int| 0 <= k < 6 && x == neighbor(h, k);
            assert(x == neighbor(done2[done.len() as int], k));
        } else {
            assert(cells[x] == RawTileState::FreeToTake);
            if done.len() == 0 {
                assert(x == origin());
                assert(h == origin());
            } else {
                let (j, k) = choose|j: int, k: int|
                    0 <= j < done.len() && 0 <= k < 6 && x == #[trigger] neighbor(done[j], k);
                assert(done2[j] == done[j]);
            }
        }
    }
}

/// Growing on from `done` into `picks` keeps the picks connected and takes
/// exactly the picked cells.
#[verifier::rlimit(30)]
proof fn lemma_grow_connected(
    cells: Map<Hex, RawTileState>,
    done: Seq<Hex>,
    picks: Seq<Hex>,
    step: int,
)
    requires
        cells.dom().finite(),
        valid_picks(cells, picks, step),
        frontier_of(cells, done),
        grows_connected(done),
    ensures
        grows_connected(done + picks),
        taken_cells(grow_all(cells, picks)) == (done + picks).to_set(),
    decreases picks.len(),
{
    if picks.len() == 0 {
        assert(done + picks =~= done);
    } else {
        let h = picks[0];
        lemma_frontier_grow(cells, done, h, step < MIN_HEX_NEIGHBORS);
        lemma_connected_push(done, h);
        assert(grow(cells, h).dom() =~= cells.dom());
        lemma_grow_connected(grow(cells, h), done.push(h), picks.drop_first(), step + 1);
        assert(done.push(h) + picks.drop_first() =~= done + picks);
        assert(grow_all(cells, picks) == grow_all(grow(cells, h), picks.drop_first()));
    }
}

/// Growing on from `done` into `picks` keeps the frontier.
proof fn lemma_grow_frontier(
    cells: Map<Hex, RawTileState>,
    done: Seq<Hex>,
    picks: Seq<Hex>,
    step: int,
)
    requires
        cells.dom().finite(),
        valid_picks(cells, picks, step),
        frontier_of(cells, done),
    ensures
        frontier_of(grow_all(cells, picks), done + picks),
    decreases picks.len(),
{
    if picks.len() == 0 {
        assert(done + picks =~= done);
    } else {
        let h = picks[0];
        let next = grow(cells, h);
        lemma_frontier_grow(cells, done, h, step < MIN_HEX_NEIGHBORS);
        assert(next.dom() =~= cells.dom());
        lemma_grow_frontier(next, done.push(h), picks.drop_first(), step + 1);
        assert(done.push(h) + picks.drop_first() =~= done + picks);
        assert(grow_all(cells, picks) == grow_all(next, picks.drop_first()));
    }
}

/// True when no neighbour on the map of a pick is still unknown.
pub open spec fn picks_touched(cells: Map<Hex, RawTileState>, done: Seq<Hex>) -> bool {
    forall|j: int, k: int|
        0 <= j < done.len() && 0 <= k < 6 && cells.dom().contains(#[trigger] neighbor(done[j], k))
            ==> cells[neighbor(done[j], k)] != RawTileState::Unknown
}

/// Growing on from `done` into `picks` leaves no neighbour of a pick
/// unknown.
proof fn lemma_grow_touched(
    cells: Map<Hex, RawTileState>,
    done: Seq<Hex>,
    picks: Seq<Hex>,
    step: int,
)
    requires
        valid_picks(cells, picks, step),
        picks_touched(cells, done),
    ensures
        picks_touched(grow_all(cells, picks), done + picks),
    decreases picks.len(),
{
    if picks.len() == 0 {
        assert(done + picks =~= done);
    } else {
        let h = picks[0];
        let next = grow(cells, h);
        let done2 = done.push(h);
        assert forall|j: int, k: int|
            0 <= j < done2.len() && 0 <= k < 6 && next.dom().contains(
                #[trigger] neighbor(done2[j], k),
            ) implies next[neighbor(done2[j], k)] != RawTileState::Unknown by {
            let x = neighbor(done2[j], k);
            if j < done.len() {
                assert(done2[j] == done[j]);
            } else {
                assert(is_neighbor(h, x));
            }
        }
        lemma_grow_touched(next, done2, picks.drop_first(), step + 1);
        assert(done2 + picks.drop_first() =~= done + picks);
    }
}

/// The neighbour across from the `k`-th neighbour of `p` is `p` again.
proof fn lemma_neighbor_back(p: Hex, k: int)
    requires
        neighbors_fit(p),
        0 <= k < 6,
    ensures
        neighbor(neighbor(p, k), (k + 3) % 6) == p,
{
}

/// Once the centre is taken, a cell is free to take exactly when it is not
/// taken and has a taken neighbour.
proof fn lemma_free_to_take(r: int, picks: Seq<Hex>)
    requires
        0 <= r <= MAX_RADIUS,
        picks.len() > 0,
        valid_picks(seed_cells(r), picks, 0),
    ensures
        forall|h: Hex|
            #[trigger] grow_all(seed_cells(r), picks).dom().contains(h) ==> (grow_all(
                seed_cells(r),
                picks,
            )[h] == RawTileState::FreeToTake <==> (grow_all(seed_cells(r), picks)[h]
                != RawTileState::Taken && exists|k: int|
                0 <= k < 6 && #[trigger] neighbor_taken(grow_all(seed_cells(r), picks), h, k))),
{
    let seed = seed_cells(r);
    let cells = grow_all(seed, picks);
    let none: Seq<Hex> = seq![];
    lemma_hexagon_order(r);
    assert(seed.dom() =~= hexagon(r));
    assert(taken_cells(seed) =~= none.to_set());
    lemma_grow_connected(seed, none, picks, 0);
    lemma_grow_frontier(seed, none, picks, 0);
    lemma_grow_touched(seed, none, picks, 0);
    assert(none + picks =~= picks);
    lemma_grow_all_dom(seed, picks);
    assert forall|h: Hex| #[trigger] cells.dom().contains(h) implies (cells[h]
        == RawTileState::FreeToTake <==> (cells[h] != RawTileState::Taken && exists|k: int|
        0 <= k < 6 && #[trigger] neighbor_taken(cells, h, k))) by {
        if cells[h] == RawTileState::FreeToTake {
            let (j, k) = choose|j: int, k: int|
                0 <= j < picks.len() && 0 <= k < 6 && h == #[trigger] neighbor(picks[j], k);
            let p = picks[j];
            assert(picks.to_set().contains(p));
            assert(taken_cells(cells).contains(p));
            lemma_hexagon_coords(r, p);
            lemma_neighbor_back(p, k);
            assert(neighbor_taken(cells, h, (k + 3) % 6));
        }
        if cells[h] != RawTileState::Taken && exists|k: int|
            0 <= k < 6 && #[trigger] neighbor_taken(cells, h, k) {
            let k = choose|k: int| 0 <= k < 6 && #[trigger] neighbor_taken(cells, h, k);
            let p = neighbor(h, k);
            assert(taken_cells(cells).contains(p));
            assert(picks.to_set().contains(p));
            let j = choose|j: int| 0 <= j < picks.len() && picks[j] == p;
            lemma_hexagon_coords(r, h);
            lemma_neighbor_back(h, k);
            assert(neighbor(picks[j], (k + 3) % 6) == h);
        }
    }
}

/// Growing never changes which cells are on the map.
proof fn lemma_grow_all_dom(cells: Map<Hex, RawTileState>, picks: Seq<Hex>)
    ensures
        grow_all(cells, picks).dom() == cells.dom(),
    decreases picks.len(),
{
    if picks.len() > 0 {
        assert(grow(cells, picks[0]).dom() =~= cells.dom());
        lemma_grow_all_dom(grow(cells, picks[0]), picks.drop_first());
    }
}

/// Hexagons of a map of radius at most `MAX_RADIUS` have small coordinates,
/// and so have their neighbours.
pub proof fn lemma_hexagon_coords(r: int, h: Hex)
    requires
        0 <= r <= MAX_RADIUS,
        hexagon(r).contains(h),
    ensures
        coords_ok(h),
        neighbors_fit(h),
        -r <= h.x <= r,
        -r <= h.y <= r,
        forall|k: int| 0 <= k < 6 ==> coords_ok(#[trigger] neighbor(h, k)),
{
}

/// The six neighbours of a hexagon differ from it and from each other.
pub proof fn lemma_neighbors_distinct(h: Hex)
    requires
        neighbors_fit(h),
    ensures
        forall|k: int| 0 <= k < 6 ==> #[trigger] neighbor(h, k) != h,
        forall|j: int, k: int|
            0 <= j < 6 && 0 <= k < 6 && j != k ==> #[trigger] neighbor(h, j) != #[trigger] neighbor(
                h,
                k,
            ),
{
}

/// Growing into an eligible cell takes exactly that one cell more.
proof fn lemma_grow_takes_one(cells: Map<Hex, RawTileState>, h: Hex, overrule: bool)
    requires
        cells.dom().finite(),
        eligible(cells, h, overrule),
    ensures
        taken_cells(grow(cells, h)) == taken_cells(cells).insert(h),
        !taken_cells(cells).contains(h),
        taken_cells(grow(cells, h)).len() == taken_cells(cells).len() + 1,
        grow(cells, h).dom() == cells.dom(),
{
    assert(taken_cells(grow(cells, h)) =~= taken_cells(cells).insert(h));
    assert(grow(cells, h).dom() =~= cells.dom());
}

/// A shape that grows cell by cell inside the hexagon of its map.
#[allow(non_camel_case_types)]
pub struct TileMap_rawShapeGen {
    map: HexagonalMap<RawTileState>,
    size: MapSize,
}

impl TileMap_rawShapeGen {
    /// The state of each cell.
    pub closed spec fn cells(self) -> Map<Hex, RawTileState> {
        raw_cells(self.map)
    }

    /// The size of map the shape is grown for.
    pub closed spec fn spec_size(self) -> MapSize {
        self.size
    }

    /// The cells cover exactly the hexagon of the map's radius.
    pub open spec fn wf(self) -> bool {
        self.cells().dom() == hexagon(self.spec_size().spec_radius() as int)
    }

    /// What every generator that `new` returns satisfies: it covers its
    /// hexagon, holds `tile_count` taken cells in one connected piece and
    /// has its centre taken.
    pub open spec fn grown(self) -> bool {
        &&& self.wf()
        &&& taken_cells(self.cells()).len() == self.spec_size().spec_tile_count()
        &&& connected_cells(taken_cells(self.cells()))
        &&& self.cells()[origin()] == RawTileState::Taken
    }

    /// The size of map the shape is grown for.
    pub fn size(&self) -> (r: MapSize)
        ensures
            r == self.spec_size(),
    {
        self.size
    }

    /// Grows a shape of `size.tile_count()` cells from the centre: each step
    /// takes a random cell that is free to take, and from the third step on
    /// only one with at least `MIN_HEX_NEIGHBORS` taken neighbours. In the
    /// grown shape a cell is free to take exactly when it is not taken and
    /// has a taken neighbour.
    pub fn new(size: MapSize, rng: &mut StdRng) -> (r: Result<Self, MapError>)
        ensures
            r matches Ok(m) ==> m.grown() && m.spec_size() == size,
            r matches Ok(m) ==> exists|picks: Seq<Hex>|
                #![trigger grow_all(seed_cells(size.spec_radius() as int), picks)]
                picks.len() == size.spec_tile_count() && valid_picks(
                    seed_cells(size.spec_radius() as int),
                    picks,
                    0,
                ) && m.cells() == grow_all(seed_cells(size.spec_radius() as int), picks)
                    && grows_connected(picks) && taken_cells(m.cells()) == picks.to_set(),
            r matches Ok(m) ==> forall|h: Hex|
                #[trigger] m.cells().dom().contains(h) ==> (m.cells()[h] == RawTileState::FreeToTake
                    <==> (m.cells()[h] != RawTileState::Taken && exists|k: int|
                    0 <= k < 6 && #[trigger] neighbor_taken(m.cells(), h, k))),
            r matches Err(e) ==> e == MapError::OutOfTiles && exists|picks: Seq<Hex>|
                #![trigger grow_all(seed_cells(size.spec_radius() as int), picks)]
                picks.len() < size.spec_tile_count() && valid_picks(
                    seed_cells(size.spec_radius() as int),
                    picks,
                    0,
                ) && stuck(
                    grow_all(seed_cells(size.spec_radius() as int), picks),
                    picks.len() < MIN_HEX_NEIGHBORS,
                ),
    {
        let radius = size.radius();
        let mut map = raw_map_filled(radius, RawTileState::Unknown);
        proof {
            lemma_hexagon_order(radius as int);
            assert(hexagon(radius as int).contains(origin()));
        }
        raw_map_set(&mut map, Hex { x: 0, y: 0 }, RawTileState::FreeToTake);
        let mut out = TileMap_rawShapeGen { map, size };
        proof {
            assert(out.cells().dom() =~= hexagon(radius as int));
            assert(out.cells() =~= seed_cells(radius as int));
            assert(taken_cells(out.cells()) =~= Set::empty());
        }
        let count = size.tile_count();
        let ghost seed = seed_cells(radius as int);
        let ghost mut picks: Seq<Hex> = seq![];
        let mut i: u8 = 0;
        while i < count
            invariant
                out.wf(),
                out.spec_size() == size,
                radius == size.spec_radius(),
                count == size.spec_tile_count(),
                i <= count,
                i == 0 ==> out.cells() == seed_cells(radius as int),
                taken_cells(out.cells()).len() == i,
                i > 0 ==> out.cells()[origin()] == RawTileState::Taken,
                seed == seed_cells(radius as int),
                picks.len() == i,
                valid_picks(seed, picks, 0),
                out.cells() == grow_all(seed, picks),
            decreases count - i,
        {
            let ghost before = out.cells();
            let run = out.do_a_run(rng, i < MIN_HEX_NEIGHBORS);
            if run.is_err() {
                proof {
                    assert(grow_all(seed, picks) == before);
                }
                return Err(MapError::OutOfTiles);
            }
            proof {
                lemma_hexagon_order(radius as int);
                let h = choose|h: Hex| eligible(before, h, i < MIN_HEX_NEIGHBORS) && out.cells()
                    == grow(before, h);
                lemma_grow_takes_one(before, h, i < MIN_HEX_NEIGHBORS);
                lemma_picks_push(seed, picks, 0, h);
                picks = picks.push(h);
                if i == 0 {
                    assert(h == origin());
                }
            }
            i = i + 1;
        }
        proof {
            lemma_hexagon_order(radius as int);
            let none: Seq<Hex> = seq![];
            assert(taken_cells(seed) =~= none.to_set());
            lemma_grow_connected(seed, none, picks, 0);
            assert(none + picks =~= picks);
            assert(connected_cells(taken_cells(out.cells())));
            lemma_free_to_take(radius as int, picks);
        }
        Ok(out)
    }

    /// One growth step: takes a random eligible cell and makes its unknown
    /// neighbours free to take. Fails, changing nothing, when no cell is
    /// eligible.
    fn do_a_run(&mut self, rng: &mut StdRng, overrule_min_neighbors: bool) -> (r: Result<
        (),
        MapError,
    >)
        requires
            old(self).wf(),
        ensures
            final(self).wf(),
            final(self).spec_size() == old(self).spec_size(),
            r is Ok ==> exists|h: Hex|
                eligible(old(self).cells(), h, overrule_min_neighbors) && final(self).cells()
                    == grow(old(self).cells(), h),
            r is Err ==> r == Err::<(), MapError>(MapError::OutOfTiles) && final(self).cells()
                == old(self).cells() && stuck(old(self).cells(), overrule_min_neighbors),
    {
        let ghost radius = self.size.spec_radius() as int;
        let ghost before = self.cells();
        proof {
            lemma_hexagon_order(radius);
        }
        let entries = raw_map_entries(&self.map);
        let mut candidates: Vec<Hex> = Vec::new();
        let mut i: usize = 0;
        while i < entries.len()
            invariant
                self.cells() == before,
                before.dom() == hexagon(radius),
                0 <= radius <= MAX_RADIUS,
                entries@.len() == hexagon_order(radius).len(),
                forall|j: int| 0 <= j < entries@.len() ==> entries@[j].0 == hexagon_order(radius)[j],
                forall|j: int|
                    0 <= j < entries@.len() ==> before.dom().contains(entries@[j].0)
                        && entries@[j].1 == before[entries@[j].0],
                i <= entries.len(),
                forall|c: Hex| candidates@.contains(c) ==> eligible(before, c, overrule_min_neighbors),
                forall|j: int|
                    0 <= j < i && eligible(before, entries@[j].0, overrule_min_neighbors)
                        ==> candidates@.contains(entries@[j].0),
            decreases entries.len() - i,
        {
            let (hex, state) = entries[i];
            proof {
                lemma_hexagon_coords(radius, hex);
            }
            let ghost old_candidates = candidates@;
            if state == RawTileState::FreeToTake && (overrule_min_neighbors || self.count_neighbors(
                hex,
            ) >= MIN_HEX_NEIGHBORS) {
                candidates.push(hex);
                proof {
                    assert(candidates@.last() == hex);
                }
            }
            proof {
                assert forall|c: Hex| old_candidates.contains(c) implies candidates@.contains(c) by {
                    let j = choose|j: int| 0 <= j < old_candidates.len() && old_candidates[j] == c;
                    assert(candidates@[j] == c);
                }
                if eligible(before, hex, overrule_min_neighbors) {
                    assert(candidates@.contains(hex)) by {
                        assert(candidates@[candidates@.len() - 1] == hex);
                    }
                }
            }
            i = i + 1;
        }
        let chosen = match choose_hex(rng, &candidates) {
            Option::Some(h) => h,
            None => {
                proof {
                    assert forall|h: Hex| !eligible(before, h, overrule_min_neighbors) by {
                        if eligible(before, h, overrule_min_neighbors) {
                            assert(hexagon_order(radius).to_set().contains(h));
                            let j = choose|j: int|
                                0 <= j < hexagon_order(radius).len() && hexagon_order(radius)[j]
                                    == h;
                            assert(candidates@.contains(entries@[j].0));
                        }
                    }
                }
                return Err(MapError::OutOfTiles);
            },
        };
        self.take_cell(chosen);
        Ok(())
    }

    /// Takes the cell `chosen` and makes its unknown neighbours free to take
    /// (see `grow`).
    fn take_cell(&mut self, chosen: Hex)
        requires
            old(self).wf(),
            old(self).cells().dom().contains(chosen),
        ensures
            final(self).wf(),
            final(self).spec_size() == old(self).spec_size(),
            final(self).cells() == grow(old(self).cells(), chosen),
    {
        let ghost radius = self.size.spec_radius() as int;
        let ghost before = self.cells();
        proof {
            lemma_hexagon_coords(radius, chosen);
        }
        raw_map_set(&mut self.map, chosen, RawTileState::Taken);
        let neighbors = all_neighbors(chosen);
        let mut k: usize = 0;
        while k < 6
            invariant
                0 <= radius <= MAX_RADIUS,
                before.dom() == hexagon(radius),
                self.size.spec_radius() == radius,
                before.dom().contains(chosen),
                self.size == old(self).size,
                forall|j: int| 0 <= j < 6 ==> neighbors@[j] == neighbor(chosen, j),
                forall|j: int| 0 <= j < 6 ==> coords_ok(#[trigger] neighbor(chosen, j)),
                k <= 6,
                self.cells().dom() == before.dom(),
                forall|x: Hex|
                    before.dom().contains(x) ==> self.cells()[x] == (if x == chosen {
                        RawTileState::Taken
                    } else if (exists|j: int| 0 <= j < k && x == neighbor(chosen, j))
                        && before[x] == RawTileState::Unknown {
                        RawTileState::FreeToTake
                    } else {
                        before[x]
                    }),
            decreases 6 - k,
        {
            let n = neighbors[k];
            let ghost cur = self.cells();
            proof {
                assert(coords_ok(neighbor(chosen, k as int)));
                lemma_neighbors_distinct(chosen);
            }
            if raw_map_get(&self.map, n) == Option::Some(RawTileState::Unknown) {
                raw_map_set(&mut self.map, n, RawTileState::FreeToTake);
            }
            proof {
                assert(n != chosen);
                assert forall|x: Hex| before.dom().contains(x) implies self.cells()[x] == (if x
                    == chosen {
                    RawTileState::Taken
                } else if (exists|j: int| 0 <= j < k + 1 && x == neighbor(chosen, j)) && before[x]
                    == RawTileState::Unknown {
                    RawTileState::FreeToTake
                } else {
                    before[x]
                }) by {
                    if x == n {
                        if exists|j: int| 0 <= j < k && x == neighbor(chosen, j) {
                            let j = choose|j: int| 0 <= j < k && x == neighbor(chosen, j);
                            assert(neighbor(chosen, j) != neighbor(chosen, k as int));
                        }
                    } else if exists|j: int| 0 <= j < k + 1 && x == neighbor(chosen, j) {
                        let j = choose|j: int| 0 <= j < k + 1 && x == neighbor(chosen, j);
                        assert(j < k);
                    }
                }
            }
            k = k + 1;
        }
        proof {
            assert(self.cells() =~= grow(before, chosen));
        }
    }

    /// Number of taken neighbours of `hex`.
    fn count_neighbors(&self, hex: Hex) -> (r: u8)
        requires
            neighbors_fit(hex),
            forall|k: int| 0 <= k < 6 ==> coords_ok(#[trigger] neighbor(hex, k)),
        ensures
            r == taken_neighbor_count(self.cells(), hex),
    {
        let neighbors = all_neighbors(hex);
        let mut counted: u8 = 0;
        let mut k: usize = 0;
        while k < 6
            invariant
                k <= 6,
                counted <= k,
                forall|j: int| 0 <= j < 6 ==> neighbors@[j] == neighbor(hex, j),
                forall|j: int| 0 <= j < 6 ==> coords_ok(#[trigger] neighbor(hex, j)),
                counted + taken_neighbors_from(self.cells(), hex, k as int) == taken_neighbor_count(
                    self.cells(),
                    hex,
                ),
            decreases 6 - k,
        {
            if raw_map_get(&self.map, neighbors[k]) == Option::Some(RawTileState::Taken) {
                counted = counted + 1;
            }
            k = k + 1;
        }
        counted
    }

    /// The state of the cell at `hex`, `None` outside the map.
    pub fn get(&self, hex: Hex) -> (r: Option<RawTileState>)
        requires
            coords_ok(hex),
        ensures
            r == (if self.cells().dom().contains(hex) {
                Option::Some(self.cells()[hex])
            } else {
                None
            }),
    {
        raw_map_get(&self.map, hex)
    }

    /// Every cell with its state, row by row.
    pub fn iter(&self) -> (r: Vec<(Hex, RawTileState)>)
        requires
            self.wf(),
        ensures
            r@.len() == hexagon_order(self.spec_size().spec_radius() as int).len(),
            forall|i: int|
                0 <= i < r@.len() ==> r@[i].0 == hexagon_order(
                    self.spec_size().spec_radius() as int,
                )[i] && r@[i].1 == self.cells()[r@[i].0],
    {
        raw_map_entries(&self.map)
    }
}

/// The cells that belong to a shape.
pub open spec fn true_cells(cells: Map<Hex, bool>) -> Set<Hex> {
    cells.dom().filter(|h: Hex| cells[h])
}

/// True when `h` belongs to the shape.
pub open spec fn cell_true(cells: Map<Hex, bool>, h: Hex) -> bool {
    cells.dom().contains(h) && cells[h]
}

/// True when all six neighbours of `h` belong to the shape.
pub open spec fn surrounded(cells: Map<Hex, bool>, h: Hex) -> bool {
    forall|k: int| 0 <= k < 6 ==> cell_true(cells, #[trigger] neighbor(h, k))
}

/// True when no cell outside the shape has all six neighbours inside it.
pub open spec fn no_holes(cells: Map<Hex, bool>) -> bool {
    forall|h: Hex| cells.dom().contains(h) && !cells[h] ==> !surrounded(cells, h)
}

/// The shape a grown generator describes: its taken cells.
pub open spec fn shape_of(cells: Map<Hex, RawTileState>) -> Map<Hex, bool> {
    Map::new(|h: Hex| cells.dom().contains(h), |h: Hex| cells[h] == RawTileState::Taken)
}

/// The easternmost `x` reached from `(x, 0)` going east through the shape.
pub open spec fn east_end(cells: Map<Hex, bool>, x: int) -> int
    decreases MAX_RADIUS - x,
{
    if x < MAX_RADIUS && cell_true(cells, mk_hex(x + 1, 0)) {
        east_end(cells, x + 1)
    } else {
        x
    }
}

/// Walking east from a cell of the shape ends on a cell of the shape.
proof fn lemma_east_end_in_shape(cells: Map<Hex, bool>, x: int)
    requires
        cell_true(cells, mk_hex(x, 0)),
    ensures
        cell_true(cells, mk_hex(east_end(cells, x), 0)),
    decreases MAX_RADIUS - x,
{
    if x < MAX_RADIUS && cell_true(cells, mk_hex(x + 1, 0)) {
        lemma_east_end_in_shape(cells, x + 1);
    }
}

/// Where the walk round the edge starts: the east end of row 0.
pub open spec fn edge_start(cells: Map<Hex, bool>) -> Hex {
    mk_hex(east_end(cells, 0), 0)
}

/// One look round `pos`, through its neighbours from the `k`-th on: coming
/// from outside the shape onto a neighbour inside it moves there (`true` in
/// the third place); passing from inside to outside is remembered.
pub open spec fn scan(cells: Map<Hex, bool>, pos: Hex, inside: bool, k: int) -> (Hex, bool, bool)
    decreases 6 - k,
{
    if k < 0 || k >= 6 {
        (pos, inside, false)
    } else {
        let n = neighbor(pos, k);
        let t = cell_true(cells, n);
        if !inside && t {
            (n, true, true)
        } else if inside && !t {
            scan(cells, pos, false, k + 1)
        } else {
            scan(cells, pos, inside, k + 1)
        }
    }
}

/// A look that moves lands inside the shape; one that does not stays put.
proof fn lemma_scan(cells: Map<Hex, bool>, pos: Hex, inside: bool, k: int)
    ensures
        scan(cells, pos, inside, k).2 ==> cell_true(cells, scan(cells, pos, inside, k).0),
        !scan(cells, pos, inside, k).2 ==> scan(cells, pos, inside, k).0 == pos,
    decreases 6 - k,
{
    if 0 <= k < 6 {
        lemma_scan(cells, pos, false, k + 1);
        lemma_scan(cells, pos, inside, k + 1);
    }
}

/// The walk round the edge after `j` looks: position, whether the last
/// neighbour seen was inside, and the cells visited so far.
pub open spec fn walk(cells: Map<Hex, bool>, start: Hex, j: nat) -> (Hex, bool, Seq<Hex>)
    decreases j,
{
    if j == 0 {
        (start, cell_true(cells, start), seq![start])
    } else {
        let prev = walk(cells, start, (j - 1) as nat);
        let s = scan(cells, prev.0, prev.1, 0);
        (s.0, s.1, if s.2 {
            prev.2.push(s.0)
        } else {
            prev.2
        })
    }
}

/// True when, after `j` looks, the last visited cell is the start again.
pub open spec fn walk_closes(cells: Map<Hex, bool>, start: Hex, j: nat) -> bool {
    j >= 1 && walk(cells, start, j).2.last() == start
}

/// Most looks the walk round the edge makes before giving up.
pub const EDGE_WALK_LIMIT: usize = 1024;

/// The edge found by looking on from the `j`-th look: the visited cells,
/// without the repeated start, at the first look that closes the walk;
/// `None` when no look up to `EDGE_WALK_LIMIT` closes it.
pub open spec fn edge_from(cells: Map<Hex, bool>, start: Hex, j: nat) -> Option<Seq<Hex>>
    decreases EDGE_WALK_LIMIT + 1 - j,
{
    if j > EDGE_WALK_LIMIT {
        None
    } else if walk_closes(cells, start, j) {
        Option::Some(walk(cells, start, j).2.drop_last())
    } else {
        edge_from(cells, start, j + 1)
    }
}

/// The edge of a shape, walked from `edge_start`.
pub open spec fn spec_edge(cells: Map<Hex, bool>) -> Option<Seq<Hex>> {
    edge_from(cells, edge_start(cells), 1)
}

/// Where the walk stands after `j` looks, and whether the last neighbour
/// seen was inside: all that the next look depends on.
pub open spec fn walk_state(cells: Map<Hex, bool>, start: Hex, j: nat) -> (Hex, bool) {
    (walk(cells, start, j).0, walk(cells, start, j).1)
}

/// The last visited cell is where the walk stands.
proof fn lemma_walk_last(cells: Map<Hex, bool>, start: Hex, j: nat)
    ensures
        walk(cells, start, j).2.len() >= 1,
        walk(cells, start, j).2.last() == walk(cells, start, j).0,
    decreases j,
{
    if j > 0 {
        let prev = walk(cells, start, (j - 1) as nat);
        lemma_walk_last(cells, start, (j - 1) as nat);
        lemma_scan(cells, prev.0, prev.1, 0);
    }
}

/// The walk never leaves the map.
proof fn lemma_walk_in_map(cells: Map<Hex, bool>, start: Hex, j: nat)
    requires
        cells.dom().contains(start),
    ensures
        cells.dom().contains(walk(cells, start, j).0),
    decreases j,
{
    if j > 0 {
        let prev = walk(cells, start, (j - 1) as nat);
        lemma_walk_in_map(cells, start, (j - 1) as nat);
        lemma_scan(cells, prev.0, prev.1, 0);
    }
}

/// Two walks that reach the same state go on alike.
proof fn lemma_walk_shift(cells: Map<Hex, bool>, start: Hex, a: nat, b: nat, k: nat)
    requires
        walk_state(cells, start, a) == walk_state(cells, start, b),
    ensures
        walk_state(cells, start, a + k) == walk_state(cells, start, b + k),
    decreases k,
{
    if k > 0 {
        lemma_walk_shift(cells, start, a, b, (k - 1) as nat);
        assert(((a + k) - 1) as nat == a + (k - 1) as nat);
        assert(((b + k) - 1) as nat == b + (k - 1) as nat);
    }
}

/// Once a state comes back after `b - a` looks, the walk repeats with that
/// period.
proof fn lemma_walk_period(cells: Map<Hex, bool>, start: Hex, a: nat, b: nat, j: nat)
    requires
        a < b,
        a <= j,
        walk_state(cells, start, a) == walk_state(cells, start, b),
    ensures
        walk_state(cells, start, j) == walk_state(
            cells,
            start,
            (a + (j - a) % (b - a)) as nat,
        ),
    decreases j,
{
    let p = (b - a) as nat;
    if j < b {
        vstd::arithmetic::div_mod::lemma_small_mod((j - a) as nat, p);
    } else {
        lemma_walk_shift(cells, start, a, b, (j - b) as nat);
        assert(a + (j - b) as nat == j - p);
        assert(b + (j - b) as nat == j);
        lemma_walk_period(cells, start, a, b, (j - p) as nat);
        vstd::arithmetic::div_mod::lemma_mod_add_multiples_vanish(j - p - a, p as int);
    }
}

/// A walk on a map of at most `n` cells comes back to a state it was in
/// within `2 * n` looks.
proof fn lemma_walk_repeats(cells: Map<Hex, bool>, start: Hex, n: nat)
    requires
        cells.dom().finite(),
        cells.dom().len() <= n,
        cells.dom().contains(start),
    ensures
        exists|a: nat, b: nat|
            a < b <= 2 * n && #[trigger] walk_state(cells, start, a) == #[trigger] walk_state(
                cells,
                start,
                b,
            ),
{
    let d = cells.dom();
    let on = |h: Hex| (h, true);
    let off = |h: Hex| (h, false);
    let states = d.map(on).union(d.map(off));
    vstd::set_lib::lemma_map_size_bound(d, d.map(on), on);
    vstd::set_lib::lemma_map_size_bound(d, d.map(off), off);
    vstd::set_lib::lemma_len_union(d.map(on), d.map(off));
    let looks = vstd::set_lib::set_int_range(0, (2 * n + 1) as int);
    vstd::set_lib::lemma_int_range(0, (2 * n + 1) as int);
    let g = |j: int| walk_state(cells, start, j as nat);
    if !exists|a: nat, b: nat|
        a < b <= 2 * n && #[trigger] walk_state(cells, start, a) == #[trigger] walk_state(
            cells,
            start,
            b,
        ) {
        assert forall|x: int, y: int|
            looks.contains(x) && looks.contains(y) && #[trigger] g(x) == #[trigger] g(
                y,
            ) implies x == y by {
            if x < y {
                assert(walk_state(cells, start, x as nat) == walk_state(cells, start, y as nat));
            } else if y < x {
                assert(walk_state(cells, start, y as nat) == walk_state(cells, start, x as nat));
            }
        }
        vstd::set_lib::lemma_map_size(looks, looks.map(g), g);
        assert forall|s: (Hex, bool)| looks.map(g).contains(s) implies states.contains(s) by {
            let j = choose|j: int| looks.contains(j) && s == g(j);
            lemma_walk_in_map(cells, start, j as nat);
            if s.1 {
                assert(on(s.0) == s);
                assert(d.map(on).contains(s));
            } else {
                assert(off(s.0) == s);
                assert(d.map(off).contains(s));
            }
        }
        vstd::set_lib::lemma_len_subset(looks.map(g), states);
        assert(false);
    }
}

/// An edge not found within `EDGE_WALK_LIMIT` looks means no look up to
/// the limit closes the walk.
proof fn lemma_edge_from_none(cells: Map<Hex, bool>, start: Hex, j: nat, k: nat)
    requires
        edge_from(cells, start, j) is None,
        j <= k <= EDGE_WALK_LIMIT,
    ensures
        !walk_closes(cells, start, k),
    decreases k - j,
{
    if j < k {
        lemma_edge_from_none(cells, start, j + 1, k);
    }
}

/// On a map covering a hexagon, the east end of row 0 lies on the map.
proof fn lemma_east_end_in_map(cells: Map<Hex, bool>, r: int, x: int)
    requires
        0 <= x <= r <= MAX_RADIUS,
        cells.dom() == hexagon(r),
    ensures
        x <= east_end(cells, x) <= r,
        cells.dom().contains(mk_hex(east_end(cells, x), 0)),
    decreases MAX_RADIUS - x,
{
    if x < MAX_RADIUS && cell_true(cells, mk_hex(x + 1, 0)) {
        assert(hexagon(r).contains(mk_hex(x + 1, 0)));
        lemma_east_end_in_map(cells, r, x + 1);
    } else {
        assert(hexagon(r).contains(mk_hex(x, 0)));
    }
}

/// When the walk round the edge of a shape does not close within
/// `EDGE_WALK_LIMIT` looks, it never closes: the limit only gives up on
/// walks that would go on for ever.
pub proof fn lemma_edge_walk_never_closes(cells: Map<Hex, bool>, r: int, j: nat)
    requires
        0 <= r <= 6,
        cells.dom() == hexagon(r),
        spec_edge(cells) is None,
    ensures
        !walk_closes(cells, edge_start(cells), j),
{
    let start = edge_start(cells);
    if j >= 1 {
        lemma_east_end_in_map(cells, r, 0);
        crate::hex::lemma_hexagon_len_bound(r);
        lemma_walk_repeats(cells, start, 169);
        let (a, b) = choose|a: nat, b: nat|
            a < b <= 2 * 169 && #[trigger] walk_state(cells, start, a) == #[trigger] walk_state(
                cells,
                start,
                b,
            );
        lemma_walk_last(cells, start, j);
        lemma_walk_last(cells, start, b);
        lemma_edge_from_none(cells, start, 1, b);
        if j <= EDGE_WALK_LIMIT {
            lemma_edge_from_none(cells, start, 1, j);
        } else {
            lemma_walk_period(cells, start, a, b, j);
            let i = (a + (j - a) % (b - a)) as nat;
            lemma_walk_last(cells, start, i);
            if i >= 1 {
                lemma_edge_from_none(cells, start, 1, i);
            } else {
                lemma_walk_last(cells, start, 0);
            }
        }
    }
}

/// The shape of a map: which cells of its hexagon belong to it.
#[allow(non_camel_case_types)]
pub struct TileMap_shape {
    map: HexagonalMap<bool>,
    size: MapSize,
}

impl TileMap_shape {
    /// Whether each cell belongs to the shape.
    pub closed spec fn cells(self) -> Map<Hex, bool> {
        shape_cells(self.map)
    }

    /// The size of the map.
    pub closed spec fn spec_size(self) -> MapSize {
        self.size
    }

    /// The cells cover exactly the hexagon of the map's radius.
    pub open spec fn wf(self) -> bool {
        self.cells().dom() == hexagon(self.spec_size().spec_radius() as int)
    }

    /// What every shape that `new` returns satisfies: it covers its
    /// hexagon, holds `tile_count` cells in one connected piece, its centre
    /// among them, and has no holes.
    pub open spec fn complete(self) -> bool {
        &&& self.wf()
        &&& true_cells(self.cells()).len() == self.spec_size().spec_tile_count()
        &&& connected_cells(true_cells(self.cells()))
        &&& self.cells()[origin()]
        &&& no_holes(self.cells())
    }

    /// The size of the map.
    pub fn size(&self) -> (r: MapSize)
        ensures
            r == self.spec_size(),
    {
        self.size
    }

    /// The shape made of the generator's taken cells; fails when it has a
    /// hole.
    pub fn new(from: TileMap_rawShapeGen) -> (r: Result<Self, MapError>)
        requires
            from.grown(),
        ensures
            r matches Ok(s) ==> {
                &&& s.complete()
                &&& s.spec_size() == from.spec_size()
                &&& s.cells() == shape_of(from.cells())
            },
            r matches Err(e) ==> e == MapError::ShapeHasHoles && !no_holes(shape_of(from.cells())),
    {
        let radius = from.size.radius();
        let ghost raw = from.cells();
        proof {
            lemma_hexagon_order(radius as int);
        }
        let entries = raw_map_entries(&from.map);
        let mut map = shape_map_filled(radius, false);
        let mut i: usize = 0;
        while i < entries.len()
            invariant
                0 <= radius <= MAX_RADIUS,
                raw.dom() == hexagon(radius as int),
                entries@.len() == hexagon_order(radius as int).len(),
                forall|j: int|
                    0 <= j < entries@.len() ==> entries@[j].0 == hexagon_order(radius as int)[j],
                forall|j: int|
                    0 <= j < entries@.len() ==> raw.dom().contains(entries@[j].0) && entries@[j].1
                        == raw[entries@[j].0],
                i <= entries.len(),
                shape_cells(map).dom() == raw.dom(),
                forall|h: Hex| #[trigger]
                    shape_cells(map).dom().contains(h) && shape_cells(map)[h] ==> raw[h]
                        == RawTileState::Taken,
                forall|j: int|
                    0 <= j < i ==> shape_cells(map)[entries@[j].0] == (entries@[j].1
                        == RawTileState::Taken),
            decreases entries.len() - i,
        {
            let (hex, state) = entries[i];
            proof {
                lemma_hexagon_coords(radius as int, hex);
            }
            let ghost before = shape_cells(map);
            shape_map_set(&mut map, hex, state == RawTileState::Taken);
            proof {
                assert(shape_cells(map).dom() =~= raw.dom());
                assert forall|j: int| 0 <= j < i + 1 implies shape_cells(map)[entries@[j].0] == (
                entries@[j].1 == RawTileState::Taken) by {
                    if j < i && entries@[j].0 != hex {
                        assert(before[entries@[j].0] == (entries@[j].1 == RawTileState::Taken));
                    }
                }
            }
            i = i + 1;
        }
        let out = TileMap_shape { map, size: from.size };
        proof {
            assert forall|h: Hex| raw.dom().contains(h) implies out.cells()[h] == (raw[h]
                == RawTileState::Taken) by {
                assert(hexagon_order(radius as int).to_set().contains(h));
                let j = choose|j: int|
                    0 <= j < hexagon_order(radius as int).len() && hexagon_order(
                        radius as int,
                    )[j] == h;
                assert(entries@[j].0 == h);
            }
            assert(out.cells() =~= shape_of(raw));
            assert(true_cells(out.cells()) =~= taken_cells(raw));
        }
        if out.has_no_holes() {
            Ok(out)
        } else {
            Err(MapError::ShapeHasHoles)
        }
    }

    /// Whether no cell outside the shape has all six neighbours inside it.
    fn has_no_holes(&self) -> (r: bool)
        requires
            self.wf(),
        ensures
            r == no_holes(self.cells()),
    {
        let radius = self.size.radius();
        let ghost cells = self.cells();
        proof {
            lemma_hexagon_order(radius as int);
        }
        let entries = shape_map_entries(&self.map);
        let mut i: usize = 0;
        while i < entries.len()
            invariant
                0 <= radius <= MAX_RADIUS,
                cells == self.cells(),
                cells.dom() == hexagon(radius as int),
                entries@.len() == hexagon_order(radius as int).len(),
                forall|j: int|
                    0 <= j < entries@.len() ==> entries@[j].0 == hexagon_order(radius as int)[j],
                forall|j: int|
                    0 <= j < entries@.len() ==> cells.dom().contains(entries@[j].0)
                        && entries@[j].1 == cells[entries@[j].0],
                i <= entries.len(),
                forall|j: int|
                    0 <= j < i ==> entries@[j].1 || !surrounded(cells, #[trigger] entries@[j].0),
            decreases entries.len() - i,
        {
            let (hex, state) = entries[i];
            proof {
                lemma_hexagon_coords(radius as int, hex);
            }
            if !state && self.surrounded_exec(hex) {
                proof {
                    assert(!no_holes(cells));
                }
                return false;
            }
            i = i + 1;
        }
        proof {
            assert forall|h: Hex| cells.dom().contains(h) && !cells[h] implies !surrounded(
                cells,
                h,
            ) by {
                assert(hexagon_order(radius as int).to_set().contains(h));
                let j = choose|j: int|
                    0 <= j < hexagon_order(radius as int).len() && hexagon_order(
                        radius as int,
                    )[j] == h;
                assert(entries@[j].0 == h);
            }
        }
        true
    }

    /// Whether all six neighbours of `hex` belong to the shape.
    fn surrounded_exec(&self, hex: Hex) -> (r: bool)
        requires
            neighbors_fit(hex),
            forall|k: int| 0 <= k < 6 ==> coords_ok(#[trigger] neighbor(hex, k)),
        ensures
            r == surrounded(self.cells(), hex),
    {
        let neighbors = all_neighbors(hex);
        let mut k: usize = 0;
        while k < 6
            invariant
                k <= 6,
                forall|j: int| 0 <= j < 6 ==> neighbors@[j] == neighbor(hex, j),
                forall|j: int| 0 <= j < 6 ==> coords_ok(#[trigger] neighbor(hex, j)),
                forall|j: int| 0 <= j < k ==> cell_true(self.cells(), #[trigger] neighbor(hex, j)),
            decreases 6 - k,
        {
            proof {
                assert(coords_ok(neighbor(hex, k as int)));
            }
            if shape_map_get(&self.map, neighbors[k]) != Option::Some(true) {
                proof {
                    assert(!cell_true(self.cells(), neighbor(hex, k as int)));
                }
                return false;
            }
            k = k + 1;
        }
        true
    }

    /// The `x` at which walking east along row 0 from the centre leaves the
    /// shape: the cell `(x, 0)` is the last one inside.
    fn find_edge_single(&self) -> (r: i32)
        requires
            self.wf(),
        ensures
            r == east_end(self.cells(), 0),
            hexagon(self.spec_size().spec_radius() as int).contains(mk_hex(r as int, 0)),
    {
        let ghost radius = self.size.spec_radius() as int;
        let mut x: i32 = 0;
        let mut further = shape_map_get(&self.map, Hex { x: 1, y: 0 }) == Option::Some(true);
        while further
            invariant
                0 <= radius <= 6,
                self.cells().dom() == hexagon(radius),
                0 <= x <= radius,
                further == cell_true(self.cells(), mk_hex(x + 1, 0)),
                east_end(self.cells(), 0) == east_end(self.cells(), x as int),
            decreases radius - x,
        {
            x = x + 1;
            further = shape_map_get(&self.map, Hex { x: x + 1, y: 0 }) == Option::Some(true);
        }
        x
    }

    /// One look round `pos` (see `scan`).
    fn scan_exec(&self, pos: Hex, inside: bool) -> (r: (Hex, bool, bool))
        requires
            self.wf(),
            self.cells().dom().contains(pos),
        ensures
            r == scan(self.cells(), pos, inside, 0),
    {
        proof {
            lemma_hexagon_coords(self.size.spec_radius() as int, pos);
        }
        let neighbors = all_neighbors(pos);
        let mut now_inside = inside;
        let mut k: usize = 0;
        while k < 6
            invariant
                k <= 6,
                forall|j: int| 0 <= j < 6 ==> neighbors@[j] == neighbor(pos, j),
                forall|j: int| 0 <= j < 6 ==> coords_ok(#[trigger] neighbor(pos, j)),
                scan(self.cells(), pos, inside, 0) == scan(self.cells(), pos, now_inside, k as int),
            decreases 6 - k,
        {
            let n = neighbors[k];
            let t = shape_map_get(&self.map, n) == Option::Some(true);
            if !now_inside && t {
                return (n, true, true);
            } else if now_inside && !t {
                now_inside = false;
            }
            k = k + 1;
        }
        (pos, now_inside, false)
    }

    /// The shape's edge: the cells met walking round it from the east end of
    /// row 0 until the walk comes back to its start (which is listed once).
    /// `None` when the walk does not come back within `EDGE_WALK_LIMIT`
    /// looks, and then it never comes back.
    pub fn find_edges(&self) -> (r: Option<Vec<Hex>>)
        requires
            self.wf(),
        ensures
            r matches Option::Some(e) ==> Option::Some(e@) == spec_edge(self.cells()),
            r is None ==> spec_edge(self.cells()) is None,
            r is None ==> forall|j: nat| !walk_closes(self.cells(), edge_start(self.cells()), j),
            r matches Option::Some(e) ==> forall|i: int|
                0 <= i < e@.len() ==> self.cells().dom().contains(#[trigger] e@[i]),
            r matches Option::Some(e) ==> e@.len() <= EDGE_WALK_LIMIT,
            r matches Option::Some(e) ==> cell_true(self.cells(), origin()) ==> forall|i: int|
                0 <= i < e@.len() ==> cell_true(self.cells(), #[trigger] e@[i]),
    {
        let ghost cells = self.cells();
        let x = self.find_edge_single();
        let start = Hex { x, y: 0 };
        let mut pos = start;
        let mut inside = shape_map_get(&self.map, start) == Option::Some(true);
        let mut edge: Vec<Hex> = vec![start];
        let mut j: usize = 1;
        proof {
            assert(edge@ =~= seq![start]);
            if cell_true(cells, origin()) {
                lemma_east_end_in_shape(cells, 0);
            }
        }
        while j <= EDGE_WALK_LIMIT
            invariant
                self.wf(),
                cells == self.cells(),
                start == edge_start(cells),
                cells.dom().contains(start),
                1 <= j <= EDGE_WALK_LIMIT + 1,
                (pos, inside, edge@) == walk(cells, start, (j - 1) as nat),
                cells.dom().contains(pos),
                forall|i: int| 0 <= i < edge@.len() ==> cells.dom().contains(#[trigger] edge@[i]),
                1 <= edge@.len() <= j,
                edge@[0] == start,
                cell_true(cells, origin()) ==> forall|i: int|
                    0 <= i < edge@.len() ==> cell_true(cells, #[trigger] edge@[i]),
                cell_true(cells, origin()) ==> cell_true(cells, pos),
                spec_edge(cells) == edge_from(cells, start, j as nat),
            decreases EDGE_WALK_LIMIT + 1 - j,
        {
            let ghost (prev_pos, prev_inside) = (pos, inside);
            let (next, now_inside, moved) = self.scan_exec(pos, inside);
            proof {
                lemma_scan(cells, prev_pos, prev_inside, 0);
            }
            pos = next;
            inside = now_inside;
            if moved {
                edge.push(next);
            }
            let last = edge[edge.len() - 1];
            if last == start {
                edge.pop();
                return Some(edge);
            }
            j = j + 1;
        }
        proof {
            assert forall|j: nat| !walk_closes(cells, start, j) by {
                lemma_edge_walk_never_closes(cells, self.size.spec_radius() as int, j);
            }
        }
        None
    }

    /// Whether the cell at `hex` belongs to the shape; `None` outside the map.
    pub fn get(&self, hex: Hex) -> (r: Option<bool>)
        requires
            coords_ok(hex),
        ensures
            r == (if self.cells().dom().contains(hex) {
                Option::Some(self.cells()[hex])
            } else {
                None
            }),
    {
        shape_map_get(&self.map, hex)
    }

    /// Every cell with whether it belongs to the shape, row by row.
    pub fn iter(&self) -> (r: Vec<(Hex, bool)>)
        requires
            self.wf(),
        ensures
            r@.len() == hexagon_order(self.spec_size().spec_radius() as int).len(),
            forall|i: int|
                0 <= i < r@.len() ==> r@[i].0 == hexagon_order(
                    self.spec_size().spec_radius() as int,
                )[i] && r@[i].1 == self.cells()[r@[i].0],
    {
        shape_map_entries(&self.map)
    }
}

} // verus!

//! Placing the villages on the shape's edge, the artifact slots in rings
//! round the centre, and the shuffled artifacts into the slots.

use vstd::prelude::*;

use rand::rngs::StdRng;
use hexx::storage::HexagonalMap;

use crate::hex::{
    all_neighbors, coords_ok, neighbors_fit, hexagon, hexagon_order, lemma_hexagon_order, lemma_ring_point_bounds,
    mk_hex, neighbor, ring, ring_around_origin, ring_len, ring_point, Hex, MAX_RADIUS,
};
use crate::hexmap::shape::{cell_true, lemma_hexagon_coords, origin, spec_edge, TileMap_shape};
use crate::hexmap::{MapError, MapSize, MIN_PROP_DISTANCE, VILLAGE_COUNT};
use crate::storage::{prop_cells, prop_map_entries, prop_map_filled, prop_map_get, prop_map_set};
use crate::random::shuffle;
use crate::tiles::{Prop, PropOption};

verus! {

/// Index into the edge of the village numbered `k + 1`: `k * len / 10`
/// rounded half up, spreading the villages evenly along the edge.
pub open spec fn village_index(k: int, len: int) -> int {
    (2 * k * len + 10) / 20
}

/// True when every village index falls on the edge.
pub open spec fn edge_fits_villages(len: int) -> bool {
    forall|k: int| 0 <= k < VILLAGE_COUNT ==> village_index(k, len) < len
}

/// The cells after villages `1..=n` are placed along `edge`, village
/// `k + 1` at `edge[village_index(k)]`, later ones over earlier ones.
pub open spec fn with_villages(cells: Map<Hex, PropOption>, edge: Seq<Hex>, n: int) -> Map<
    Hex,
    PropOption,
>
    decreases n,
{
    if n <= 0 {
        cells
    } else {
        with_villages(cells, edge, n - 1).insert(
            edge[village_index(n - 1, edge.len() as int)],
            PropOption::Placed(Prop::Village(n as u8)),
        )
    }
}

/// Villages are numbered in the order of their places along the edge: the
/// place of the village `k + 1` holds a village numbered from `k + 1` to
/// `n`, and exactly the village `k + 1` unless a later village goes to the
/// same place.
pub proof fn lemma_village_numbers(cells: Map<Hex, PropOption>, edge: Seq<Hex>, n: int, k: int)
    requires
        0 <= k < n <= VILLAGE_COUNT,
    ensures
        with_villages(cells, edge, n)[edge[village_index(k, edge.len() as int)]] matches PropOption::Placed(
            Prop::Village(id),
        ) && k + 1 <= id <= n,
        (forall|j: int|
            k < j < n ==> #[trigger] edge[village_index(j, edge.len() as int)] != edge[village_index(
                k,
                edge.len() as int,
            )]) ==> with_villages(cells, edge, n)[edge[village_index(k, edge.len() as int)]]
            == PropOption::Placed(Prop::Village((k + 1) as u8)),
    decreases n,
{
    let len = edge.len() as int;
    if n > k + 1 {
        lemma_village_numbers(cells, edge, n - 1, k);
        if edge[village_index(n - 1, len)] == edge[village_index(k, len)] {
            assert(with_villages(cells, edge, n)[edge[village_index(k, len)]] == PropOption::Placed(
                Prop::Village(n as u8),
            ));
        }
    }
}

/// The first village (counting from `k`) whose index falls off an edge of
/// length `len`; `VILLAGE_COUNT` when none does.
pub open spec fn first_short_step(len: int, k: int) -> int
    decreases VILLAGE_COUNT - k,
{
    if k >= VILLAGE_COUNT {
        VILLAGE_COUNT as int
    } else if village_index(k, len) >= len {
        k
    } else {
        first_short_step(len, k + 1)
    }
}

/// `first_short_step` finds the first village that falls off the edge.
proof fn lemma_first_short_step(len: int, k: int, s: int)
    requires
        0 <= k <= s < VILLAGE_COUNT,
        village_index(s, len) >= len,
        forall|j: int| k <= j < s ==> village_index(j, len) < len,
    ensures
        first_short_step(len, k) == s,
    decreases s - k,
{
    if k < s {
        lemma_first_short_step(len, k + 1, s);
    }
}

/// Every cell of the map after placing villages holds what it held
/// before, or a village standing on the edge.
proof fn lemma_with_villages(cells: Map<Hex, PropOption>, edge: Seq<Hex>, n: int)
    requires
        0 <= n <= VILLAGE_COUNT,
        edge_fits_villages(edge.len() as int),
        forall|i: int| 0 <= i < edge.len() ==> cells.dom().contains(#[trigger] edge[i]),
    ensures
        with_villages(cells, edge, n).dom() == cells.dom(),
        forall|h: Hex|
            #![trigger with_villages(cells, edge, n)[h]]
            cells.dom().contains(h) ==> with_villages(cells, edge, n)[h] == cells[h] || (
            with_villages(cells, edge, n)[h] matches PropOption::Placed(Prop::Village(id))
                && 1 <= id <= n && edge.contains(h)),
    decreases n,
{
    if n > 0 {
        lemma_with_villages(cells, edge, n - 1);
        let i = village_index(n - 1, edge.len() as int);
        assert(i < edge.len());
        assert(edge[i] == edge[i]);
        assert(with_villages(cells, edge, n).dom() =~= cells.dom());
    }
}

/// The map of a shape's hexagon with props allowed nowhere.
pub open spec fn bare_cells(radius: int) -> Map<Hex, PropOption> {
    Map::new(|h: Hex| hexagon(radius).contains(h), |h: Hex| PropOption::NotAllowed)
}

/// The slots of a map of the given size on the given shape, with its
/// villages placed, or why they cannot be made: the edge walk does not
/// close, the edge is too short, two villages stand side by side, a village
/// stands on the centre, or the slot search leaves the map.
pub open spec fn spec_slots(shape: Map<Hex, bool>, size: MapSize) -> Result<
    Map<Hex, PropOption>,
    MapError,
> {
    match spec_edge(shape) {
        None => Err(MapError::EdgeNotClosed),
        Option::Some(edge) => if !edge_fits_villages(edge.len() as int) {
            Err(
                MapError::OutOfEdge {
                    step: first_short_step(edge.len() as int, 0) as u8,
                    edge_len: edge.len() as usize,
                },
            )
        } else {
            let v = with_villages(bare_cells(size.spec_radius() as int), edge, VILLAGE_COUNT as int);
            if adjacent_villages(v) {
                Err(MapError::VillagesTooClose)
            } else if v[origin()] is Placed {
                Err(MapError::CenterHasProp)
            } else {
                slot_search(
                    shape,
                    v.insert(origin(), PropOption::CanHave),
                    size.spec_artifact_count() as int,
                    1,
                    2,
                    0,
                )
            }
        },
    }
}

/// The artifacts of a map with `n` copies of each: monoliths, birds, weird
/// monkeys and dragons (the templates' primary arts), then books (the only
/// secondary art).
pub open spec fn artifact_list(n: int) -> Seq<Prop> {
    Seq::new(n as nat, |i: int| Prop::Monolith) + Seq::new(n as nat, |i: int| Prop::Bird) + Seq::new(
        n as nat,
        |i: int| Prop::WeirdMonkey,
    ) + Seq::new(n as nat, |i: int| Prop::Dragon) + Seq::new(n as nat, |i: int| Prop::Book)
}

/// The map after the artifacts `arts` go, in order, into the slots met
/// along `keys`.
pub open spec fn fill_slots(cells: Map<Hex, PropOption>, keys: Seq<Hex>, arts: Seq<Prop>) -> Map<
    Hex,
    PropOption,
>
    decreases keys.len(),
{
    if keys.len() == 0 {
        cells
    } else if cells[keys[0]] is CanHave {
        fill_slots(cells.insert(keys[0], PropOption::Placed(arts[0])), keys.drop_first(), arts.drop_first())
    } else {
        fill_slots(cells, keys.drop_first(), arts)
    }
}

/// The artifact list holds only the five artifacts, no village.
proof fn lemma_artifact_list(n: int)
    requires
        0 <= n,
    ensures
        forall|a: Prop| artifact_list(n).contains(a) ==> !(a is Village),
{
    assert forall|a: Prop| artifact_list(n).contains(a) implies !(a is Village) by {
        let i = choose|i: int| 0 <= i < artifact_list(n).len() && artifact_list(n)[i] == a;
    }
}

/// Number of cells holding the prop `a`.
pub open spec fn prop_count(cells: Map<Hex, PropOption>, a: Prop) -> nat {
    cells.dom().filter(|h: Hex| cells[h] == PropOption::Placed(a)).len()
}

/// Writing `v` at `h` trades the old value's prop for the new one's.
proof fn lemma_prop_count_insert(cells: Map<Hex, PropOption>, h: Hex, v: PropOption, a: Prop)
    requires
        cells.dom().finite(),
        cells.dom().contains(h),
    ensures
        prop_count(cells.insert(h, v), a) + (if cells[h] == PropOption::Placed(a) {
            1int
        } else {
            0int
        }) == prop_count(cells, a) + (if v == PropOption::Placed(a) {
            1int
        } else {
            0int
        }),
{
    let after = cells.insert(h, v);
    let s = cells.dom().filter(|x: Hex| cells[x] == PropOption::Placed(a));
    let s2 = after.dom().filter(|x: Hex| after[x] == PropOption::Placed(a));
    assert(after.dom() =~= cells.dom());
    assert(s.finite());
    if cells[h] == PropOption::Placed(a) {
        if v == PropOption::Placed(a) {
            assert(s2 =~= s);
        } else {
            assert(s2 =~= s.remove(h));
        }
    } else {
        if v == PropOption::Placed(a) {
            assert(s2 =~= s.insert(h));
        } else {
            assert(s2 =~= s);
        }
    }
}

/// `n` copies of `x` hold `a` `n` times if it is `x`, else never.
proof fn lemma_prop_copies_count(x: Prop, n: int, a: Prop)
    requires
        0 <= n,
    ensures
        Seq::new(n as nat, |i: int| x).to_multiset().count(a) == (if x == a {
            n
        } else {
            0
        }),
    decreases n,
{
    broadcast use vstd::seq_lib::group_to_multiset_ensures;
    broadcast use vstd::multiset::group_multiset_axioms;

    if n == 0 {
        assert(Seq::new(n as nat, |i: int| x) =~= Seq::<Prop>::empty());
    } else {
        lemma_prop_copies_count(x, n - 1, a);
        assert(Seq::new(n as nat, |i: int| x) =~= Seq::new((n - 1) as nat, |i: int| x).push(x));
    }
}

/// The artifact list holds each artifact `n` times.
proof fn lemma_artifact_list_count(n: int, a: Prop)
    requires
        0 <= n,
        !(a is Village),
    ensures
        artifact_list(n).to_multiset().count(a) == n,
{
    broadcast use vstd::multiset::group_multiset_axioms;

    let m = Seq::new(n as nat, |i: int| Prop::Monolith);
    let b = Seq::new(n as nat, |i: int| Prop::Bird);
    let w = Seq::new(n as nat, |i: int| Prop::WeirdMonkey);
    let d = Seq::new(n as nat, |i: int| Prop::Dragon);
    let k = Seq::new(n as nat, |i: int| Prop::Book);
    assert(artifact_list(n) == m + b + w + d + k);
    vstd::seq_lib::lemma_multiset_commutative(m + b + w + d, k);
    vstd::seq_lib::lemma_multiset_commutative(m + b + w, d);
    vstd::seq_lib::lemma_multiset_commutative(m + b, w);
    vstd::seq_lib::lemma_multiset_commutative(m, b);
    lemma_prop_copies_count(Prop::Monolith, n, a);
    lemma_prop_copies_count(Prop::Bird, n, a);
    lemma_prop_copies_count(Prop::WeirdMonkey, n, a);
    lemma_prop_copies_count(Prop::Dragon, n, a);
    lemma_prop_copies_count(Prop::Book, n, a);
}

/// Every prop stands on a cell of the shape.
pub open spec fn props_fit(shape: Map<Hex, bool>, cells: Map<Hex, PropOption>) -> bool {
    forall|h: Hex| #[trigger] cells.dom().contains(h) && cells[h] is Placed ==> cell_true(shape, h)
}

/// True when a village stands on `h`.
pub open spec fn is_village(cells: Map<Hex, PropOption>, h: Hex) -> bool {
    cells.dom().contains(h) && cells[h] matches PropOption::Placed(Prop::Village(_))
}

/// True when some village has a village next to it.
pub open spec fn adjacent_villages(cells: Map<Hex, PropOption>) -> bool {
    exists|h: Hex, k: int|
        0 <= k < 6 && is_village(cells, h) && is_village(cells, #[trigger] neighbor(h, k))
}

/// True when some neighbour of `h` holds a prop.
pub open spec fn neighbor_has_prop(cells: Map<Hex, PropOption>, h: Hex) -> bool {
    exists|k: int|
        0 <= k < 6 && cells.dom().contains(#[trigger] neighbor(h, k)) && cells[neighbor(
            h,
            k,
        )] is Placed
}

/// The search for artifact slots, from the `idx`-th hexagon of the ring of
/// radius `rd` on, with `placed` slots made so far: every second hexagon of
/// each ring (radius 2, 4, 6, ...) becomes a slot when it belongs to the
/// shape, props are not allowed there yet and no neighbour holds a prop.
/// It stops once `target` slots exist, and fails on a hexagon outside the
/// map.
pub open spec fn slot_search(
    shape: Map<Hex, bool>,
    cells: Map<Hex, PropOption>,
    target: int,
    placed: int,
    rd: int,
    idx: int,
) -> Result<Map<Hex, PropOption>, MapError>
    decreases MAX_RADIUS + 2 - rd, ring_len(rd) + 2 - idx,
{
    if placed >= target {
        Ok(cells)
    } else if rd < 1 || rd > MAX_RADIUS {
        Err(MapError::RingOutOfBounds { hex: mk_hex(rd, 0), ring: rd as u32 })
    } else if idx < ring_len(rd) {
        let hex = ring(rd)[idx];
        if !shape.dom().contains(hex) {
            Err(MapError::RingOutOfBounds { hex, ring: rd as u32 })
        } else if shape[hex] && cells[hex] is NotAllowed && !neighbor_has_prop(cells, hex) {
            slot_search(shape, cells.insert(hex, PropOption::CanHave), target, placed + 1, rd, idx + 2)
        } else {
            slot_search(shape, cells, target, placed, rd, idx + 2)
        }
    } else {
        slot_search(shape, cells, target, placed, rd + 2, 0)
    }
}

/// The empty artifact slots.
pub open spec fn slots(cells: Map<Hex, PropOption>) -> Set<Hex> {
    cells.dom().filter(|h: Hex| cells[h] is CanHave)
}

/// The slot search makes exactly `target` slots, each in the shape, and
/// changes nothing else.
proof fn lemma_slot_search(
    shape: Map<Hex, bool>,
    cells: Map<Hex, PropOption>,
    target: int,
    placed: int,
    rd: int,
    idx: int,
)
    requires
        cells.dom().finite(),
        cells.dom() == shape.dom(),
        slots(cells).len() == placed,
        placed <= target,
    ensures
        slot_search(shape, cells, target, placed, rd, idx) matches Ok(c) ==> {
            &&& c.dom() == cells.dom()
            &&& slots(c).len() == target
            &&& forall|h: Hex|
                #![trigger c[h]]
                c.dom().contains(h) ==> c[h] == cells[h] || (cells[h] is NotAllowed && c[h] is CanHave
                    && cell_true(shape, h))
        },
    decreases MAX_RADIUS + 2 - rd, ring_len(rd) + 2 - idx,
{
    if placed >= target {
    } else if rd < 1 || rd > MAX_RADIUS {
    } else if idx < ring_len(rd) {
        let hex = ring(rd)[idx];
        if !shape.dom().contains(hex) {
        } else if shape[hex] && cells[hex] is NotAllowed && !neighbor_has_prop(cells, hex) {
            let next = cells.insert(hex, PropOption::CanHave);
            assert(slots(next) =~= slots(cells).insert(hex));
            assert(next.dom() =~= cells.dom());
            lemma_slot_search(shape, next, target, placed + 1, rd, idx + 2);
        } else {
            lemma_slot_search(shape, cells, target, placed, rd, idx + 2);
        }
    } else {
        lemma_slot_search(shape, cells, target, placed, rd + 2, 0);
    }
}

/// The map of prop slots: villages, artifacts and the slots still empty.
#[allow(non_camel_case_types)]
pub struct TileMap_props {
    map: HexagonalMap<PropOption>,
    size: MapSize,
}

impl TileMap_props {
    /// What each cell holds.
    pub closed spec fn cells(self) -> Map<Hex, PropOption> {
        prop_cells(self.map)
    }

    /// The size of the map.
    pub closed spec fn spec_size(self) -> MapSize {
        self.size
    }

    /// The cells cover exactly the hexagon of the map's radius.
    pub open spec fn wf(self) -> bool {
        self.cells().dom() == hexagon(self.spec_size().spec_radius() as int)
    }

    /// The size of the map.
    pub fn size(&self) -> (r: MapSize)
        ensures
            r == self.spec_size(),
    {
        self.size
    }

    /// What the cell at `hex` holds; `None` outside the map.
    pub fn get(&self, hex: Hex) -> (r: Option<PropOption>)
        requires
            coords_ok(hex),
        ensures
            r == (if self.cells().dom().contains(hex) {
                Option::Some(self.cells()[hex])
            } else {
                None
            }),
    {
        prop_map_get(&self.map, hex)
    }

    /// Every cell with what it holds, row by row.
    pub fn iter(&self) -> (r: Vec<(Hex, PropOption)>)
        requires
            self.wf(),
        ensures
            r@.len() == hexagon_order(self.spec_size().spec_radius() as int).len(),
            forall|i: int|
                0 <= i < r@.len() ==> r@[i].0 == hexagon_order(
                    self.spec_size().spec_radius() as int,
                )[i] && r@[i].1 == self.cells()[r@[i].0],
    {
        prop_map_entries(&self.map)
    }

    /// Generates the prop map of a shape: villages on its edge, artifact
    /// slots round its centre (see `spec_slots`), then the shuffled
    /// artifacts into the slots in storage order. The artifacts' order
    /// depends on the generator and is left unsaid.
    pub fn new(rng: &mut StdRng, from: &TileMap_shape) -> (r: Result<Self, MapError>)
        requires
            from.complete(),
        ensures
            match spec_slots(from.cells(), from.spec_size()) {
                Err(e) => r == Err::<Self, MapError>(e),
                Ok(s) => r matches Ok(p) && p.wf() && p.spec_size() == from.spec_size() && exists|
                    arts: Seq<Prop>,
                |
                    arts.to_multiset() == artifact_list(
                        from.spec_size().spec_artifact_count_per_art() as int,
                    ).to_multiset() && p.cells() == fill_slots(
                        s,
                        hexagon_order(from.spec_size().spec_radius() as int),
                        arts,
                    ),
            },
            r matches Ok(p) ==> props_fit(from.cells(), p.cells()),
            r matches Ok(p) ==> !adjacent_villages(p.cells()),
            r matches Ok(p) ==> slots(p.cells()).len() == 0,
            r matches Ok(p) ==> forall|h: Hex|
                #[trigger] p.cells().dom().contains(h) ==> (p.cells()[h] matches PropOption::Placed(
                    Prop::Village(id),
                ) ==> 1 <= id <= VILLAGE_COUNT),
            r matches Ok(p) ==> (spec_edge(from.cells()) matches Option::Some(edge) && forall|k: int|
                #![trigger edge[village_index(k, edge.len() as int)]]
                0 <= k < VILLAGE_COUNT ==> {
                    &&& p.cells()[edge[village_index(k, edge.len() as int)]] matches PropOption::Placed(
                        Prop::Village(id),
                    ) && k + 1 <= id <= VILLAGE_COUNT
                    &&& (forall|j: int|
                        k < j < VILLAGE_COUNT ==> edge[village_index(j, edge.len() as int)] != edge[village_index(
                            k,
                            edge.len() as int,
                        )]) ==> p.cells()[edge[village_index(k, edge.len() as int)]]
                        == PropOption::Placed(Prop::Village((k + 1) as u8))
                }),
            r matches Ok(p) ==> forall|a: Prop|
                !(a is Village) ==> #[trigger] prop_count(p.cells(), a)
                    == from.spec_size().spec_artifact_count_per_art(),
    {
        let size = from.size();
        let radius = size.radius();
        let ghost shape = from.cells();
        proof {
            lemma_hexagon_order(radius as int);
            assert(hexagon(radius as int).contains(origin()));
        }
        let mut output = TileMap_props { map: prop_map_filled(radius, PropOption::NotAllowed), size };
        proof {
            assert(output.cells() =~= bare_cells(radius as int));
            assert(output.cells().dom() =~= hexagon(radius as int));
            assert(cell_true(shape, origin()));
        }
        match output.place_villages(from) {
            Ok(()) => {},
            Err(e) => {
                proof {
                    if let Option::Some(edge) = spec_edge(shape) {
                        if let MapError::OutOfEdge { step, edge_len } = e {
                            lemma_first_short_step(edge.len() as int, 0, step as int);
                        }
                    }
                }
                return Err(e);
            },
        }
        let ghost edge = spec_edge(shape)->Some_0;
        let ghost villages = output.cells();
        proof {
            lemma_with_villages(bare_cells(radius as int), edge, VILLAGE_COUNT as int);
        }
        if output.has_invalid_villages() {
            return Err(MapError::VillagesTooClose);
        }
        match output.place_prop_places(from) {
            Ok(()) => {},
            Err(e) => return Err(e),
        }
        let ghost with_slots = output.cells();
        let ghost keys = hexagon_order(radius as int);
        let target = size.artifact_count();
        proof {
            let start = villages.insert(origin(), PropOption::CanHave);
            assert(slots(villages) =~= Set::empty()) by {
                assert forall|h: Hex| !(#[trigger] slots(villages).contains(h)) by {
                    if villages.dom().contains(h) {
                        assert(villages[h] == bare_cells(radius as int)[h] || villages[h] is Placed);
                    }
                }
            }
            assert(slots(start) =~= slots(villages).insert(origin()));
            assert(start.dom() =~= villages.dom());
            lemma_slot_search(shape, start, target as int, 1, 2, 0);
            assert forall|a: Prop| !(a is Village) implies #[trigger] prop_count(with_slots, a) == 0 by {
                let placed = with_slots.dom().filter(|h: Hex| with_slots[h] == PropOption::Placed(a));
                assert forall|h: Hex| !placed.contains(h) by {
                    if with_slots.dom().contains(h) {
                        assert(with_slots[h] == start[h] || with_slots[h] is CanHave);
                        assert(villages[h] == bare_cells(radius as int)[h] || villages[h] matches PropOption::Placed(
                            Prop::Village(_),
                        ));
                    }
                }
                assert(placed =~= Set::empty());
            }
        }
        let arts = Self::prepare_random_props(rng, size);
        output.put_artifacts(&arts);
        proof {
            assert(output.cells() == fill_slots(with_slots, keys, arts@));
            assert forall|a: Prop| !(a is Village) implies #[trigger] prop_count(output.cells(), a)
                == arts@.to_multiset().count(a) by {
                assert(prop_count(with_slots, a) == 0);
            }
            assert forall|a: Prop| !(a is Village) implies #[trigger] prop_count(output.cells(), a)
                == size.spec_artifact_count_per_art() by {
                lemma_artifact_list_count(size.spec_artifact_count_per_art() as int, a);
            }
            let start = villages.insert(origin(), PropOption::CanHave);
            lemma_artifact_list(size.spec_artifact_count_per_art() as int);
            assert forall|a: Prop| arts@.contains(a) implies !(a is Village) by {
                broadcast use vstd::seq_lib::group_to_multiset_ensures;
                assert(arts@.to_multiset().count(a) > 0);
                assert(artifact_list(size.spec_artifact_count_per_art() as int).contains(a));
            }
            assert forall|h: Hex| #[trigger] output.cells().dom().contains(h) implies {
                &&& output.cells()[h] is Placed ==> cell_true(shape, h)
                &&& is_village(output.cells(), h) <==> is_village(villages, h)
                &&& (output.cells()[h] matches PropOption::Placed(Prop::Village(id)) ==> 1 <= id
                    <= VILLAGE_COUNT)
            } by {
                assert(output.cells()[h] == with_slots[h] || (with_slots[h] is CanHave
                    && (output.cells()[h] matches PropOption::Placed(a) && arts@.contains(a))));
                assert(with_slots[h] == start[h] || (start[h] is NotAllowed && with_slots[h] is CanHave
                    && cell_true(shape, h)));
                assert(villages[h] == bare_cells(radius as int)[h] || (villages[h] matches PropOption::Placed(
                    Prop::Village(id),
                ) && 1 <= id <= VILLAGE_COUNT && edge.contains(h)));
                if edge.contains(h) {
                    let e = choose|e: int| 0 <= e < edge.len() && edge[e] == h;
                    assert(cell_true(shape, edge[e]));
                }
            }
            assert forall|k: int| 0 <= k < VILLAGE_COUNT implies {
                &&& output.cells()[#[trigger] edge[village_index(k, edge.len() as int)]] matches PropOption::Placed(
                    Prop::Village(id),
                ) && k + 1 <= id <= VILLAGE_COUNT
                &&& (forall|j: int|
                    k < j < VILLAGE_COUNT ==> edge[village_index(j, edge.len() as int)] != edge[village_index(
                        k,
                        edge.len() as int,
                    )]) ==> output.cells()[edge[village_index(k, edge.len() as int)]]
                    == PropOption::Placed(Prop::Village((k + 1) as u8))
            } by {
                let h = edge[village_index(k, edge.len() as int)];
                lemma_village_numbers(bare_cells(radius as int), edge, VILLAGE_COUNT as int, k);
                assert(villages[h] is Placed);
                assert(h != origin());
                assert(shape.dom().contains(h));
                assert(start[h] == villages[h]);
                assert(output.cells()[h] == with_slots[h] || (with_slots[h] is CanHave
                    && (output.cells()[h] matches PropOption::Placed(a) && arts@.contains(a))));
                assert(with_slots[h] == start[h] || (start[h] is NotAllowed && with_slots[h] is CanHave
                    && cell_true(shape, h)));
            }
            assert(!adjacent_villages(output.cells())) by {
                if adjacent_villages(output.cells()) {
                    let (h, k) = choose|h: Hex, k: int|
                        0 <= k < 6 && is_village(output.cells(), h) && is_village(
                            output.cells(),
                            #[trigger] neighbor(h, k),
                        );
                    assert(output.cells().dom().contains(neighbor(h, k)));
                    assert(is_village(villages, neighbor(h, k)));
                }
            }
        }
        Ok(output)
    }

    /// Puts the artifacts `arts`, in order, into the empty slots met in
    /// storage order (see `fill_slots`), one artifact per slot; nothing
    /// else changes.
    fn put_artifacts(&mut self, arts: &Vec<Prop>)
        requires
            old(self).wf(),
            slots(old(self).cells()).len() == arts@.len(),
        ensures
            final(self).wf(),
            final(self).spec_size() == old(self).spec_size(),
            final(self).cells() == fill_slots(
                old(self).cells(),
                hexagon_order(old(self).spec_size().spec_radius() as int),
                arts@,
            ),
            slots(final(self).cells()).len() == 0,
            forall|h: Hex|
                #[trigger] final(self).cells().dom().contains(h) ==> final(self).cells()[h] == old(
                    self,
                ).cells()[h] || (old(self).cells()[h] is CanHave && (final(self).cells()[h] matches PropOption::Placed(a)
                    && arts@.contains(a))),
            forall|a: Prop|
                #[trigger] prop_count(final(self).cells(), a) == prop_count(old(self).cells(), a)
                    + arts@.to_multiset().count(a),
    {
        let size = self.size;
        let radius = size.radius();
        let ghost keys = hexagon_order(radius as int);
        let ghost with_slots = self.cells();
        let target = arts.len();
        proof {
            lemma_hexagon_order(radius as int);
        }
        let entries = prop_map_entries(&self.map);
        proof {
            assert(keys.skip(0) =~= keys);
            assert(arts@.skip(0) =~= arts@);
            broadcast use vstd::seq_lib::group_to_multiset_ensures;
            assert(arts@.take(0) =~= Seq::<Prop>::empty());
        }
        let mut k: usize = 0;
        let mut i: usize = 0;
        while i < entries.len()
            invariant
                self.wf(),
                self.size == size,
                radius == size.spec_radius(),
                0 <= radius <= 6,
                keys == hexagon_order(radius as int),
                keys.no_duplicates(),
                hexagon(radius as int).finite(),
                with_slots.dom() == hexagon(radius as int),
                entries@.len() == keys.len(),
                forall|j: int| 0 <= j < entries@.len() ==> #[trigger] entries@[j].0 == keys[j],
                forall|j: int|
                    0 <= j < entries@.len() ==> with_slots.dom().contains(entries@[j].0)
                        && entries@[j].1 == with_slots[entries@[j].0],
                i <= entries.len(),
                arts@.len() == target,
                k <= target,
                with_slots == old(self).cells(),
                slots(self.cells()).len() + k == target,
                forall|a: Prop|
                    #[trigger] prop_count(self.cells(), a) == prop_count(with_slots, a) + arts@.take(
                        k as int,
                    ).to_multiset().count(a),
                forall|j: int| i <= j < keys.len() ==> self.cells()[#[trigger] keys[j]] == with_slots[keys[j]],
                forall|j: int| 0 <= j < i ==> !(self.cells()[#[trigger] keys[j]] is CanHave),
                forall|j: int|
                    0 <= j < i ==> self.cells()[#[trigger] keys[j]] == with_slots[keys[j]] || (
                    with_slots[keys[j]] is CanHave && (self.cells()[keys[j]] matches PropOption::Placed(
                        a,
                    ) && arts@.contains(a))),
                fill_slots(with_slots, keys, arts@) == fill_slots(
                    self.cells(),
                    keys.skip(i as int),
                    arts@.skip(k as int),
                ),
            decreases entries.len() - i,
        {
            let (hex, prop) = entries[i];
            let ghost before = self.cells();
            proof {
                lemma_hexagon_coords(radius as int, hex);
                assert(keys.skip(i as int)[0] == hex);
                assert(keys.skip(i as int).drop_first() =~= keys.skip(i + 1));
            }
            if let PropOption::CanHave = prop {
                proof {
                    assert(slots(before).contains(hex));
                }
                let art = arts[k];
                prop_map_set(&mut self.map, hex, PropOption::Placed(art));
                proof {
                    assert(slots(self.cells()) =~= slots(before).remove(hex));
                    assert(self.cells().dom() =~= hexagon(radius as int));
                    assert(arts@.skip(k as int)[0] == art);
                    assert(arts@.skip(k as int).drop_first() =~= arts@.skip(k + 1));
                    assert forall|j: int| i + 1 <= j < keys.len() implies self.cells()[#[trigger] keys[j]]
                        == with_slots[keys[j]] by {
                        assert(keys[j] != keys[i as int]);
                    }
                    assert(arts@.contains(art)) by {
                        assert(arts@[k as int] == art);
                    }
                    assert forall|j: int| 0 <= j < i implies self.cells()[#[trigger] keys[j]] == before[keys[j]] by {
                        assert(keys[j] != keys[i as int]);
                    }
                    assert(arts@.take(k + 1) =~= arts@.take(k as int).push(art));
                    assert forall|a: Prop| #[trigger] prop_count(self.cells(), a)
                        == prop_count(with_slots, a) + arts@.take(k + 1).to_multiset().count(a) by {
                        broadcast use vstd::seq_lib::group_to_multiset_ensures;
                        broadcast use vstd::multiset::group_multiset_axioms;
                        lemma_prop_count_insert(before, hex, PropOption::Placed(art), a);
                        assert(self.cells() == before.insert(hex, PropOption::Placed(art)));
                        assert(prop_count(before, a) == prop_count(with_slots, a) + arts@.take(k as int).to_multiset().count(a));
                    }
                }
                k = k + 1;
            }
            i = i + 1;
        }
        proof {
            assert(keys.skip(keys.len() as int) =~= Seq::<Hex>::empty());
            assert(self.cells() == fill_slots(with_slots, keys, arts@));
            assert(slots(self.cells()) =~= Set::empty()) by {
                assert forall|h: Hex| !(#[trigger] slots(self.cells()).contains(h)) by {
                    if self.cells().dom().contains(h) {
                        assert(keys.to_set().contains(h));
                        let j = choose|j: int| 0 <= j < keys.len() && keys[j] == h;
                        assert(!(self.cells()[keys[j]] is CanHave));
                    }
                }
            }
            assert(arts@.take(k as int) =~= arts@);
            assert forall|h: Hex| #[trigger] self.cells().dom().contains(h) implies self.cells()[h] == with_slots[h]
                || (with_slots[h] is CanHave && (self.cells()[h] matches PropOption::Placed(a) && arts@.contains(a))) by {
                assert(keys.to_set().contains(h));
                let j = choose|j: int| 0 <= j < keys.len() && keys[j] == h;
            }
        }
    }

    /// The artifacts of a map of the given size (see `artifact_list`),
    /// shuffled.
    fn prepare_random_props(rng: &mut StdRng, map_size: MapSize) -> (r: Vec<Prop>)
        ensures
            r@.to_multiset() == artifact_list(map_size.spec_artifact_count_per_art() as int).to_multiset(),
            r@.len() == map_size.spec_artifact_count(),
    {
        let n = map_size.artifact_count_per_art();
        let mut out: Vec<Prop> = Vec::new();
        let templates = crate::tiles::templates();
        push_copies(&mut out, templates[0].primary_art(), n);
        push_copies(&mut out, templates[1].primary_art(), n);
        push_copies(&mut out, templates[2].primary_art(), n);
        push_copies(&mut out, templates[3].primary_art(), n);
        let ghost primaries = out@;
        let mut t: usize = 0;
        while t < 4
            invariant
                t <= 4,
                templates@ == crate::tiles::spec_templates(),
                out@ == primaries + (if t >= 2 {
                    Seq::new(n as nat, |i: int| Prop::Book)
                } else {
                    Seq::<Prop>::empty()
                }),
            decreases 4 - t,
        {
            if let Option::Some(item) = templates[t].secondary_art() {
                push_copies(&mut out, item, n);
            }
            proof {
                if t == 1 {
                    assert(out@ =~= primaries + Seq::new(n as nat, |i: int| Prop::Book));
                } else {
                    assert(templates@[t as int].spec_secondary_art() is None);
                }
            }
            t = t + 1;
        }
        proof {
            assert(out@ =~= artifact_list(n as int));
        }
        let ghost before = out@;
        shuffle(&mut out, rng);
        proof {
            broadcast use vstd::seq_lib::group_to_multiset_ensures;
            assert(out@.len() == out@.to_multiset().len());
            assert(before.len() == before.to_multiset().len());
        }
        out
    }

    /// Places villages `1..=VILLAGE_COUNT` evenly along the shape's edge
    /// (see `with_villages`), over whatever stands there. Fails when the
    /// edge walk does not close, or when the edge is too short: then
    /// `step` is the first village whose index falls off it.
    fn place_villages(&mut self, shape: &TileMap_shape) -> (r: Result<(), MapError>)
        requires
            old(self).wf(),
            shape.wf(),
            shape.spec_size() == old(self).spec_size(),
        ensures
            final(self).wf(),
            final(self).spec_size() == old(self).spec_size(),
            r is Ok ==> (spec_edge(shape.cells()) matches Option::Some(edge) && edge_fits_villages(
                edge.len() as int,
            ) && final(self).cells() == with_villages(old(self).cells(), edge, VILLAGE_COUNT as int)),
            r is Ok && cell_true(shape.cells(), origin()) ==> (spec_edge(shape.cells()) matches Option::Some(edge) && forall|i: int|
                0 <= i < edge.len() ==> cell_true(shape.cells(), #[trigger] edge[i])),
            r is Err ==> final(self).cells() == old(self).cells(),
            r matches Err(e) ==> match spec_edge(shape.cells()) {
                None => e == MapError::EdgeNotClosed,
                Option::Some(edge) => (e matches MapError::OutOfEdge { step, edge_len } && edge_len
                    == edge.len() && step < VILLAGE_COUNT && village_index(step as int, edge.len() as int)
                    >= edge.len() && forall|k: int|
                    0 <= k < step ==> village_index(k, edge.len() as int) < edge.len()),
            },
    {
        let edge = match shape.find_edges() {
            Option::Some(e) => e,
            None => return Err(MapError::EdgeNotClosed),
        };
        let edge_len = edge.len();
        let ghost radius = self.size.spec_radius() as int;
        let mut village_pos: Vec<Hex> = Vec::new();
        let mut k: u8 = 0;
        while k < VILLAGE_COUNT
            invariant
                k <= VILLAGE_COUNT,
                edge_len == edge@.len(),
                edge_len <= 1024,
                spec_edge(shape.cells()) == Option::Some(edge@),
                self.wf(),
                self.size == old(self).size,
                self.cells() == old(self).cells(),
                village_pos@.len() == k,
                forall|j: int| 0 <= j < k ==> #[trigger] village_index(j, edge_len as int) < edge_len,
                forall|j: int|
                    0 <= j < k ==> #[trigger] village_pos@[j] == edge@[village_index(j, edge_len as int)],
            decreases VILLAGE_COUNT - k,
        {
            assert(2 * (k as usize) * edge_len <= 2 * 10 * 1024) by (nonlinear_arith)
                requires
                    k <= 10,
                    edge_len <= 1024,
            ;
            let index = (2 * (k as usize) * edge_len + 10) / 20;
            assert(index == village_index(k as int, edge_len as int));
            if index >= edge_len {
                return Err(MapError::OutOfEdge { step: k, edge_len });
            }
            let ghost before = village_pos@;
            village_pos.push(edge[index]);
            proof {
                assert forall|j: int| 0 <= j < k + 1 implies #[trigger] village_pos@[j] == edge@[village_index(j, edge_len as int)] by {
                    if j < k {
                        assert(village_pos@[j] == before[j]);
                    }
                }
            }
            k = k + 1;
        }
        assert(edge_fits_villages(edge_len as int));
        let mut id: usize = 0;
        while id < village_pos.len()
            invariant
                village_pos@.len() == VILLAGE_COUNT,
                edge_len == edge@.len(),
                edge_fits_villages(edge_len as int),
                spec_edge(shape.cells()) == Option::Some(edge@),
                forall|j: int|
                    0 <= j < VILLAGE_COUNT ==> village_pos@[j] == edge@[village_index(
                        j,
                        edge_len as int,
                    )],
                forall|i: int| 0 <= i < edge@.len() ==> shape.cells().dom().contains(#[trigger] edge@[i]),
                shape.cells().dom() == hexagon(radius),
                self.cells().dom() == hexagon(radius),
                self.size.spec_radius() == radius,
                0 <= radius <= MAX_RADIUS,
                id <= VILLAGE_COUNT,
                self.cells() == with_villages(old(self).cells(), edge@, id as int),
                self.size == old(self).size,
            decreases VILLAGE_COUNT - id,
        {
            let hex = village_pos[id];
            proof {
                assert(shape.cells().dom().contains(edge@[village_index(id as int, edge_len as int)]));
                lemma_hexagon_coords(radius, hex);
            }
            prop_map_set(&mut self.map, hex, PropOption::Placed(Prop::Village(id as u8 + 1)));
            proof {
                assert(self.cells().dom() =~= hexagon(radius));
            }
            id = id + 1;
        }
        Ok(())
    }

    /// Whether some village has a village next to it.
    fn has_invalid_villages(&self) -> (r: bool)
        requires
            self.wf(),
        ensures
            r == adjacent_villages(self.cells()),
    {
        let radius = self.size.radius();
        let ghost cells = self.cells();
        proof {
            lemma_hexagon_order(radius as int);
        }
        let entries = prop_map_entries(&self.map);
        let mut i: usize = 0;
        while i < entries.len()
            invariant
                0 <= radius <= MAX_RADIUS,
                cells == self.cells(),
                cells.dom() == hexagon(radius as int),
                entries@.len() == hexagon_order(radius as int).len(),
                forall|j: int|
                    0 <= j < entries@.len() ==> entries@[j].0 == hexagon_order(radius as int)[j],
                forall|j: int|
                    0 <= j < entries@.len() ==> cells.dom().contains(entries@[j].0)
                        && entries@[j].1 == cells[entries@[j].0],
                i <= entries.len(),
                forall|j: int, k: int|
                    0 <= j < i && 0 <= k < 6 && is_village(cells, entries@[j].0) ==> !is_village(
                        cells,
                        #[trigger] neighbor(entries@[j].0, k),
                    ),
            decreases entries.len() - i,
        {
            let (hex, prop) = entries[i];
            proof {
                lemma_hexagon_coords(radius as int, hex);
            }
            if let PropOption::Placed(Prop::Village(_)) = prop {
                assert(is_village(cells, hex));
                let neighbors = all_neighbors(hex);
                let mut k: usize = 0;
                while k < 6
                    invariant
                        k <= 6,
                        cells == self.cells(),
                        is_village(cells, hex),
                        forall|j: int| 0 <= j < 6 ==> neighbors@[j] == neighbor(hex, j),
                        forall|j: int| 0 <= j < 6 ==> coords_ok(#[trigger] neighbor(hex, j)),
                        forall|j: int| 0 <= j < k ==> !is_village(cells, #[trigger] neighbor(hex, j)),
                    decreases 6 - k,
                {
                    proof {
                        assert(coords_ok(neighbor(hex, k as int)));
                    }
                    if let Option::Some(PropOption::Placed(Prop::Village(_))) = prop_map_get(
                        &self.map,
                        neighbors[k],
                    ) {
                        proof {
                            assert(is_village(cells, hex));
                            assert(is_village(cells, neighbor(hex, k as int)));
                        }
                        return true;
                    }
                    k = k + 1;
                }
            }
            i = i + 1;
        }
        proof {
            assert forall|h: Hex, k: int|
                0 <= k < 6 && is_village(cells, h) implies !is_village(
                cells,
                #[trigger] neighbor(h, k),
            ) by {
                assert(hexagon_order(radius as int).to_set().contains(h));
                let j = choose|j: int|
                    0 <= j < hexagon_order(radius as int).len() && hexagon_order(
                        radius as int,
                    )[j] == h;
                assert(entries@[j].0 == h);
            }
        }
        false
    }

    /// Whether a neighbour of `hex` holds a prop.
    fn neighbor_has_prop_exec(&self, hex: Hex) -> (r: bool)
        requires
            neighbors_fit(hex),
            forall|k: int| 0 <= k < 6 ==> coords_ok(#[trigger] neighbor(hex, k)),
        ensures
            r == neighbor_has_prop(self.cells(), hex),
    {
        let neighbors = all_neighbors(hex);
        let mut k: usize = 0;
        while k < 6
            invariant
                k <= 6,
                forall|j: int| 0 <= j < 6 ==> neighbors@[j] == neighbor(hex, j),
                forall|j: int| 0 <= j < 6 ==> coords_ok(#[trigger] neighbor(hex, j)),
                forall|j: int|
                    0 <= j < k ==> !(self.cells().dom().contains(#[trigger] neighbor(hex, j))
                        && self.cells()[neighbor(hex, j)] is Placed),
            decreases 6 - k,
        {
            proof {
                assert(coords_ok(neighbor(hex, k as int)));
            }
            if let Option::Some(PropOption::Placed(_)) = prop_map_get(&self.map, neighbors[k]) {
                return true;
            }
            k = k + 1;
        }
        false
    }

    /// Makes the centre a slot, then searches the rings for more slots (see
    /// `slot_search`) until the map's artifact count is reached. Fails when
    /// the centre holds a prop, or when a ring leaves the map first.
    fn place_prop_places(&mut self, shape: &TileMap_shape) -> (r: Result<(), MapError>)
        requires
            old(self).wf(),
            shape.wf(),
            shape.spec_size() == old(self).spec_size(),
        ensures
            final(self).wf(),
            final(self).spec_size() == old(self).spec_size(),
            old(self).cells()[origin()] is Placed ==> r == Err::<(), MapError>(
                MapError::CenterHasProp,
            ),
            !(old(self).cells()[origin()] is Placed) ==> match slot_search(
                shape.cells(),
                old(self).cells().insert(origin(), PropOption::CanHave),
                old(self).spec_size().spec_artifact_count() as int,
                1,
                2,
                0,
            ) {
                Ok(c) => r is Ok && final(self).cells() == c,
                Err(e) => r == Err::<(), MapError>(e),
            },
            forall|h: Hex|
                #[trigger] final(self).cells().dom().contains(h) ==> final(self).cells()[h] == old(
                    self,
                ).cells()[h] || (final(self).cells()[h] is CanHave && (old(self).cells()[h] is NotAllowed
                    || h == origin())),
    {
        let radius = self.size.radius();
        proof {
            lemma_hexagon_order(radius as int);
            assert(hexagon(radius as int).contains(origin()));
        }
        let center = Hex { x: 0, y: 0 };
        let target = self.size.artifact_count();
        let mut ring_distance: u32 = MIN_PROP_DISTANCE;
        let mut ring_hexes = ring_around_origin(ring_distance);
        match prop_map_get(&self.map, center) {
            Option::Some(PropOption::Placed(_)) => return Err(MapError::CenterHasProp),
            _ => {},
        }
        prop_map_set(&mut self.map, center, PropOption::CanHave);
        let ghost start = self.cells();
        proof {
            assert(self.cells().dom() =~= hexagon(radius as int));
        }
        let mut placed: usize = 1;
        let mut idx: usize = 0;
        while placed < target
            invariant
                self.wf(),
                self.size == old(self).size,
                radius == self.size.spec_radius(),
                0 <= radius <= 6,
                shape.cells().dom() == hexagon(radius as int),
                target == self.size.spec_artifact_count(),
                1 <= placed <= target,
                2 <= ring_distance <= radius + 2,
                idx > 0 ==> ring_distance <= radius,
                ring_hexes@ == ring(ring_distance as int),
                !(old(self).cells()[origin()] is Placed),
                start == old(self).cells().insert(origin(), PropOption::CanHave),
                slot_search(shape.cells(), start, target as int, 1, 2, 0) == slot_search(
                    shape.cells(),
                    self.cells(),
                    target as int,
                    placed as int,
                    ring_distance as int,
                    idx as int,
                ),
                old(self).cells().dom() == hexagon(radius as int),
                forall|h: Hex|
                    #[trigger] self.cells().dom().contains(h) ==> self.cells()[h] == old(
                        self,
                    ).cells()[h] || (self.cells()[h] is CanHave && (old(self).cells()[h] is NotAllowed
                        || h == origin())),
            decreases radius + 3 - ring_distance, ring_len(ring_distance as int) + 2 - idx,
        {
            if idx < ring_hexes.len() {
                let hex = ring_hexes[idx];
                proof {
                    lemma_ring_point_bounds(ring_distance as int, idx as int);
                    assert(ring(ring_distance as int)[0] == mk_hex(ring_distance as int, 0));
                }
                match shape.get(hex) {
                    None => {
                        return Err(MapError::RingOutOfBounds { hex, ring: ring_distance });
                    },
                    Option::Some(in_shape) => {
                        proof {
                            lemma_hexagon_coords(radius as int, hex);
                        }
                        let allowed = match prop_map_get(&self.map, hex) {
                            Option::Some(p) => p.is_allowed(),
                            None => true,
                        };
                        if in_shape && !allowed && !self.neighbor_has_prop_exec(hex) {
                            placed = placed + 1;
                            prop_map_set(&mut self.map, hex, PropOption::CanHave);
                            proof {
                                assert(self.cells().dom() =~= hexagon(radius as int));
                            }
                        }
                    },
                }
                idx = idx + 2;
            } else {
                ring_distance = ring_distance + MIN_PROP_DISTANCE;
                ring_hexes = ring_around_origin(ring_distance);
                idx = 0;
            }
        }
        Ok(())
    }
}

/// Appends `n` copies of `p`.
fn push_copies(v: &mut Vec<Prop>, p: Prop, n: usize)
    ensures
        final(v)@ == old(v)@ + Seq::new(n as nat, |i: int| p),
{
    let mut i: usize = 0;
    while i < n
        invariant
            i <= n,
            v@ == old(v)@ + Seq::new(i as nat, |j: int| p),
        decreases n - i,
    {
        v.push(p);
        i = i + 1;
        assert(v@ =~= old(v)@ + Seq::new(i as nat, |j: int| p));
    }
}

} // verus!

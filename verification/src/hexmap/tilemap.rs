//! The finished map, and one attempt at generating it from a seeded
//! generator.

use vstd::prelude::*;

use rand::rngs::StdRng;
use hexx::storage::HexagonalMap;

use crate::hex::{coords_ok, hexagon, hexagon_order, lemma_hexagon_order, neighbor, Hex};
use crate::hexmap::props::{
    adjacent_villages, artifact_list, fill_slots, is_village, prop_count, props_fit, slots,
    spec_slots, TileMap_props,
};
use crate::hexmap::shape::{
    cell_true, connected_cells, grow_all, lemma_hexagon_coords, no_holes, origin, seed_cells,
    grows_connected, shape_of, stuck, taken_cells, true_cells, valid_picks, TileMap_rawShapeGen,
    TileMap_shape,
};
use crate::hexmap::templates::{
    amount_for, artifacts_on_terrain, deal, empty_cells, free_keys, refill, switch_plan, tcount,
    tile_list, TileMap_templates,
};
use crate::hexmap::{MapError, MapSize, MIN_HEX_NEIGHBORS, VILLAGE_COUNT};
use crate::storage::{tile_cells, tile_map_entries, tile_map_filled, tile_map_get, tile_map_set};
use crate::tiles::{spec_template_of, Prop, PropOption, Tile, TileTemplate};

verus! {

/// The tiles that belong to the map's shape.
pub open spec fn taken_tiles(cells: Map<Hex, Tile>) -> Set<Hex> {
    cells.dom().filter(|h: Hex| cells[h].template is Some)
}

/// Number of tiles of template `t`.
pub open spec fn tiles_of(cells: Map<Hex, Tile>, t: TileTemplate) -> nat {
    cells.dom().filter(|h: Hex| cells[h].template == Option::Some(t))
        .len()
}

/// Number of tiles on which the prop `a` stands.
pub open spec fn tile_props_of(cells: Map<Hex, Tile>, a: Prop) -> nat {
    cells.dom().filter(|h: Hex| cells[h].prop == PropOption::Placed(a)).len()
}

/// True when a village stands on the tile at `h`.
pub open spec fn tile_has_village(cells: Map<Hex, Tile>, h: Hex) -> bool {
    cells.dom().contains(h) && cells[h].prop matches PropOption::Placed(Prop::Village(_))
}

/// What every generated map satisfies: it covers the hexagon of its size
/// and holds exactly `tile_count` tiles in one connected piece, the centre
/// among them, with each template's amount for the size (34 sand, 29
/// forest, 24 mountain and 17 water tiles on a big map; 24, 20, 16 and 13
/// on a small one); props stand
/// only on tiles, every artifact on a tile of its own template, each
/// artifact as many times as the size asks; villages are numbered from 1
/// to `VILLAGE_COUNT` and no two of them are neighbours; no artifact slot
/// is left empty.
pub open spec fn well_generated(cells: Map<Hex, Tile>, size: MapSize) -> bool {
    &&& cells.dom() == hexagon(size.spec_radius() as int)
    &&& taken_tiles(cells).len() == size.spec_tile_count()
    &&& connected_cells(taken_tiles(cells))
    &&& forall|t: TileTemplate| #[trigger] tiles_of(cells, t) == amount_for(size, t)
    &&& cells[origin()].template is Some
    &&& forall|a: Prop|
        !(a is Village) ==> #[trigger] tile_props_of(cells, a) == size.spec_artifact_count_per_art()
    &&& forall|h: Hex|
        #![trigger cells[h]]
        cells.dom().contains(h) ==> {
            &&& cells[h].prop is Placed ==> cells[h].template is Some
            &&& cells[h].prop matches PropOption::Placed(p) ==> (!(p is Village) ==> cells[h].template
                == Option::Some(spec_template_of(p)))
            &&& !(cells[h].prop is CanHave)
            &&& (cells[h].prop matches PropOption::Placed(Prop::Village(id)) ==> 1 <= id
                <= VILLAGE_COUNT)
        }
    &&& !exists|h: Hex, k: int|
        0 <= k < 6 && tile_has_village(cells, h) && tile_has_village(cells, #[trigger] neighbor(h, k))
}

/// A finished map: each cell's template and prop.
pub struct TileMap {
    map: HexagonalMap<Tile>,
    size: MapSize,
}

impl TileMap {
    /// Each cell's tile.
    pub closed spec fn cells(self) -> Map<Hex, Tile> {
        tile_cells(self.map)
    }

    /// The size of the map.
    pub closed spec fn spec_size(self) -> MapSize {
        self.size
    }

    /// The cells cover exactly the hexagon of the map's radius.
    pub open spec fn wf(self) -> bool {
        self.cells().dom() == hexagon(self.spec_size().spec_radius() as int)
    }

    /// The size of the map.
    pub fn size(&self) -> (r: MapSize)
        ensures
            r == self.spec_size(),
    {
        self.size
    }

    /// Joins a template map and a prop map of the same size: each cell gets
    /// its template and its prop. Never fails.
    pub fn new(templates: TileMap_templates, props: TileMap_props) -> (r: Result<Self, MapError>)
        requires
            templates.wf(),
            props.wf(),
            templates.spec_size() == props.spec_size(),
        ensures
            r matches Ok(m) && m.wf() && m.spec_size() == templates.spec_size() && forall|h: Hex|
                #[trigger] m.cells().dom().contains(h) ==> m.cells()[h] == (Tile {
                    template: templates.cells()[h],
                    prop: props.cells()[h],
                }),
    {
        let size = templates.size();
        let radius = size.radius();
        let ghost keys = hexagon_order(radius as int);
        proof {
            lemma_hexagon_order(radius as int);
        }
        let entries = templates.iter();
        let mut map = tile_map_filled(radius, Tile { template: None, prop: PropOption::NotAllowed });
        let mut i: usize = 0;
        while i < entries.len()
            invariant
                radius == size.spec_radius(),
                0 <= radius <= 6,
                keys == hexagon_order(radius as int),
                keys.no_duplicates(),
                keys.to_set() == hexagon(radius as int),
                templates.wf(),
                props.wf(),
                templates.spec_size() == size,
                props.spec_size() == size,
                entries@.len() == keys.len(),
                forall|j: int|
                    #![trigger entries@[j]]
                    0 <= j < entries@.len() ==> entries@[j].0 == keys[j] && entries@[j].1
                        == templates.cells()[keys[j]],
                i <= entries.len(),
                tile_cells(map).dom() == hexagon(radius as int),
                forall|j: int|
                    0 <= j < i ==> tile_cells(map)[#[trigger] keys[j]] == (Tile {
                        template: templates.cells()[keys[j]],
                        prop: props.cells()[keys[j]],
                    }),
            decreases entries.len() - i,
        {
            let (hex, template) = entries[i];
            proof {
                lemma_hexagon_coords(radius as int, hex);
            }
            let prop = match props.get(hex) {
                Option::Some(p) => p,
                None => PropOption::NotAllowed,
            };
            let ghost before = tile_cells(map);
            tile_map_set(&mut map, hex, Tile { template, prop });
            proof {
                assert(tile_cells(map).dom() =~= hexagon(radius as int));
                assert forall|j: int| 0 <= j < i + 1 implies tile_cells(map)[#[trigger] keys[j]] == (Tile {
                    template: templates.cells()[keys[j]],
                    prop: props.cells()[keys[j]],
                }) by {
                    if j < i {
                        assert(keys[j] != keys[i as int]);
                    }
                }
            }
            i = i + 1;
        }
        let out = TileMap { map, size };
        proof {
            assert forall|h: Hex| #[trigger] out.cells().dom().contains(h) implies out.cells()[h] == (Tile {
                template: templates.cells()[h],
                prop: props.cells()[h],
            }) by {
                assert(keys.to_set().contains(h));
                let j = choose|j: int| 0 <= j < keys.len() && keys[j] == h;
                assert(tile_cells(map)[keys[j]] == (Tile { template: templates.cells()[keys[j]], prop: props.cells()[keys[j]] }));
            }
        }
        Ok(out)
    }

    /// The tile at `hex`; `None` outside the map.
    pub fn get(&self, hex: Hex) -> (r: Option<Tile>)
        requires
            coords_ok(hex),
        ensures
            r == (if self.cells().dom().contains(hex) {
                Option::Some(self.cells()[hex])
            } else {
                None
            }),
    {
        tile_map_get(&self.map, hex)
    }

    /// Every cell with its tile, row by row.
    pub fn iter(&self) -> (r: Vec<(Hex, Tile)>)
        requires
            self.wf(),
        ensures
            r@.len() == hexagon_order(self.spec_size().spec_radius() as int).len(),
            forall|i: int|
                0 <= i < r@.len() ==> r@[i].0 == hexagon_order(
                    self.spec_size().spec_radius() as int,
                )[i] && r@[i].1 == self.cells()[r@[i].0],
    {
        tile_map_entries(&self.map)
    }
}

/// The growth of a shape for a map of the given size stops after `picks`,
/// with fewer cells than the map needs and no cell it may grow into.
pub open spec fn growth_stuck(size: MapSize, picks: Seq<Hex>) -> bool {
    let seed = seed_cells(size.spec_radius() as int);
    &&& picks.len() < size.spec_tile_count()
    &&& valid_picks(seed, picks, 0)
    &&& stuck(grow_all(seed, picks), picks.len() < MIN_HEX_NEIGHBORS)
}

/// The shape grown for a map of the given size by `picks` is complete in
/// size but has a hole.
pub open spec fn grown_with_hole(size: MapSize, picks: Seq<Hex>) -> bool {
    let seed = seed_cells(size.spec_radius() as int);
    &&& picks.len() == size.spec_tile_count()
    &&& valid_picks(seed, picks, 0)
    &&& !no_holes(shape_of(grow_all(seed, picks)))
}

/// A shape that `TileMap_shape::new` can return for a map of the given
/// size.
pub open spec fn possible_shape(shape: Map<Hex, bool>, size: MapSize) -> bool {
    &&& shape.dom() == hexagon(size.spec_radius() as int)
    &&& true_cells(shape).len() == size.spec_tile_count()
    &&& connected_cells(true_cells(shape))
    &&& shape[origin()]
    &&& no_holes(shape)
}

/// On a possible shape, placing villages and artifact slots fails with `e`.
pub open spec fn props_fail(size: MapSize, shape: Map<Hex, bool>, e: MapError) -> bool {
    possible_shape(shape, size) && spec_slots(shape, size) == Err::<Map<Hex, PropOption>, MapError>(e)
}

/// On a possible shape, with its slots filled by the artifacts `arts` and
/// the tiles dealt in the order `tiles`, swapping tiles under the
/// artifacts fails with `e`.
pub open spec fn tiles_fail(
    size: MapSize,
    shape: Map<Hex, bool>,
    arts: Seq<Prop>,
    tiles: Seq<TileTemplate>,
    e: MapError,
) -> bool {
    let order = hexagon_order(size.spec_radius() as int);
    let props = fill_slots(spec_slots(shape, size)->Ok_0, order, arts);
    &&& possible_shape(shape, size)
    &&& spec_slots(shape, size) is Ok
    &&& arts.to_multiset() == artifact_list(size.spec_artifact_count_per_art() as int).to_multiset()
    &&& tiles.to_multiset() == tile_list(size).to_multiset()
    &&& switch_plan(
        deal(empty_cells(size.spec_radius() as int), shape, order, tiles),
        props,
        order,
        free_keys(props, order),
        seq![],
        seq![],
    ) == Err::<(Map<Hex, Option<TileTemplate>>, Seq<TileTemplate>, Seq<Hex>), MapError>(e)
}

/// The stages make `cells` from a possible shape `shape`, the artifacts
/// shuffled into the order `arts`, the tiles shuffled into the order
/// `tiles` and the freed tiles shuffled into the order `free`: villages
/// along the edge and artifact slots in the rings as `spec_slots` places
/// them, the artifacts put into the slots by `fill_slots`, the tiles dealt
/// by `deal`, swapped under the artifacts by `switch_plan` and the freed
/// ones put back by `refill`; each cell gets its tile and its prop.
pub open spec fn stages_make(
    cells: Map<Hex, Tile>,
    size: MapSize,
    shape: Map<Hex, bool>,
    arts: Seq<Prop>,
    tiles: Seq<TileTemplate>,
    free: Seq<TileTemplate>,
) -> bool {
    let order = hexagon_order(size.spec_radius() as int);
    let props = fill_slots(spec_slots(shape, size)->Ok_0, order, arts);
    let plan = switch_plan(
        deal(empty_cells(size.spec_radius() as int), shape, order, tiles),
        props,
        order,
        free_keys(props, order),
        seq![],
        seq![],
    );
    &&& possible_shape(shape, size)
    &&& spec_slots(shape, size) is Ok
    &&& arts.to_multiset() == artifact_list(size.spec_artifact_count_per_art() as int).to_multiset()
    &&& tiles.to_multiset() == tile_list(size).to_multiset()
    &&& plan is Ok
    &&& free.to_multiset() == plan->Ok_0.1.to_multiset()
    &&& cells.dom() == hexagon(size.spec_radius() as int)
    &&& forall|h: Hex|
        #![trigger cells[h]]
        cells.dom().contains(h) ==> cells[h] == (Tile {
            template: refill(plan->Ok_0.0, plan->Ok_0.2, free)[h],
            prop: props[h],
        })
}

/// Why an attempt at generating a map of the given size can fail with `e`:
/// some stage fails on what the stages before it can produce.
pub open spec fn generation_fails(size: MapSize, e: MapError) -> bool {
    ||| e == MapError::OutOfTiles && exists|picks: Seq<Hex>| #[trigger] growth_stuck(size, picks)
    ||| e == MapError::ShapeHasHoles && exists|picks: Seq<Hex>| #[trigger] grown_with_hole(size, picks)
    ||| exists|shape: Map<Hex, bool>| #[trigger] props_fail(size, shape, e)
    ||| exists|shape: Map<Hex, bool>, arts: Seq<Prop>, tiles: Seq<TileTemplate>|
        #[trigger] tiles_fail(size, shape, arts, tiles, e)
}

/// One attempt at generating a map of the given size: grow a shape, place
/// villages and artifacts on it, deal and swap the tiles, and join them.
/// Any stage may fail (see `generation_fails`; which one depends on the
/// generator); what comes out is well generated, and is what the stages
/// make of some possible shape and some shuffled orders (see
/// `stages_make`).
pub fn try_gen(rng: &mut StdRng, size: MapSize) -> (r: Result<TileMap, MapError>)
    ensures
        r matches Ok(m) ==> m.wf() && m.spec_size() == size && well_generated(m.cells(), size),
        r matches Ok(m) ==> exists|
            shape: Map<Hex, bool>,
            arts: Seq<Prop>,
            tiles: Seq<TileTemplate>,
            free: Seq<TileTemplate>,
        | #[trigger] stages_make(m.cells(), size, shape, arts, tiles, free),
        r matches Err(e) ==> generation_fails(size, e),
{
    let ghost seed = seed_cells(size.spec_radius() as int);
    let raw = match TileMap_rawShapeGen::new(size, rng) {
        Ok(raw) => raw,
        Err(e) => {
            proof {
                let picks = choose|picks: Seq<Hex>|
                    #![trigger grow_all(seed_cells(size.spec_radius() as int), picks)]
                    picks.len() < size.spec_tile_count() && valid_picks(seed, picks, 0) && stuck(
                        grow_all(seed, picks),
                        picks.len() < MIN_HEX_NEIGHBORS,
                    );
                assert(growth_stuck(size, picks));
            }
            return Err(e);
        },
    };
    let shape = match TileMap_shape::new(raw) {
        Ok(shape) => shape,
        Err(e) => {
            proof {
                let picks = choose|picks: Seq<Hex>|
                    #![trigger grow_all(seed_cells(size.spec_radius() as int), picks)]
                    picks.len() == size.spec_tile_count() && valid_picks(seed, picks, 0)
                        && raw.cells() == grow_all(seed, picks) && grows_connected(picks)
                        && taken_cells(raw.cells()) == picks.to_set();
                assert(grown_with_hole(size, picks));
            }
            return Err(e);
        },
    };
    let props = match TileMap_props::new(rng, &shape) {
        Ok(props) => props,
        Err(e) => {
            proof {
                assert(props_fail(size, shape.cells(), e));
            }
            return Err(e);
        },
    };
    let templates = match TileMap_templates::new(rng, &shape, &props) {
        Ok(templates) => templates,
        Err(e) => {
            proof {
                let order = hexagon_order(size.spec_radius() as int);
                let s = spec_slots(shape.cells(), size)->Ok_0;
                let arts = choose|arts: Seq<Prop>|
                    arts.to_multiset() == artifact_list(
                        size.spec_artifact_count_per_art() as int,
                    ).to_multiset() && props.cells() == fill_slots(s, order, arts);
                let tiles = choose|tiles: Seq<TileTemplate>|
                    #![trigger tiles.to_multiset()]
                    tiles.to_multiset() == tile_list(size).to_multiset() && match switch_plan(
                        deal(empty_cells(size.spec_radius() as int), shape.cells(), order, tiles),
                        props.cells(),
                        order,
                        free_keys(props.cells(), order),
                        seq![],
                        seq![],
                    ) {
                        Err(e2) => Err::<TileMap_templates, MapError>(e) == Err::<
                            TileMap_templates,
                            MapError,
                        >(e2),
                        Ok(_) => false,
                    };
                assert(tiles_fail(size, shape.cells(), arts, tiles, e));
            }
            return Err(e);
        },
    };
    let ghost sc = shape.cells();
    let ghost pc = props.cells();
    let ghost tc = templates.cells();
    let map = TileMap::new(templates, props);
    proof {
        if map is Ok {
            let m = map->Ok_0;
            let order = hexagon_order(size.spec_radius() as int);
            let s = spec_slots(sc, size)->Ok_0;
            let arts = choose|arts: Seq<Prop>|
                arts.to_multiset() == artifact_list(
                    size.spec_artifact_count_per_art() as int,
                ).to_multiset() && pc == fill_slots(s, order, arts);
            let tiles = choose|tiles: Seq<TileTemplate>|
                #![trigger tiles.to_multiset()]
                tiles.to_multiset() == tile_list(size).to_multiset() && match switch_plan(
                    deal(empty_cells(size.spec_radius() as int), sc, order, tiles),
                    pc,
                    order,
                    free_keys(pc, order),
                    seq![],
                    seq![],
                ) {
                    Err(e2) => false,
                    Ok((c, freed, removed)) => exists|free: Seq<TileTemplate>|
                        free.to_multiset() == freed.to_multiset() && tc == refill(c, removed, free),
                };
            let plan = switch_plan(
                deal(empty_cells(size.spec_radius() as int), sc, order, tiles),
                pc,
                order,
                free_keys(pc, order),
                seq![],
                seq![],
            )->Ok_0;
            let free = choose|free: Seq<TileTemplate>|
                free.to_multiset() == plan.1.to_multiset() && tc == refill(plan.0, plan.2, free);
            assert(stages_make(m.cells(), size, sc, arts, tiles, free));
        }
        if map is Ok {
            let m = map->Ok_0;
            let cells = m.cells();
            lemma_hexagon_order(size.spec_radius() as int);
            assert(hexagon(size.spec_radius() as int).contains(origin()));
            assert(taken_tiles(cells) =~= true_cells(sc));
            assert(taken_tiles(cells).len() == size.spec_tile_count());
            assert forall|t: TileTemplate| #[trigger] tiles_of(cells, t) == amount_for(size, t) by {
                assert(cells.dom().filter(|h: Hex| cells[h].template == Option::Some(t)) =~= tc.dom().filter(
                    |h: Hex| tc[h] == Option::Some(t),
                ));
                assert(tcount(tc, t) == amount_for(size, t));
            }
            assert(cells[origin()].template is Some);
            assert forall|a: Prop| !(a is Village) implies #[trigger] tile_props_of(cells, a)
                == size.spec_artifact_count_per_art() by {
                assert(cells.dom().filter(|h: Hex| cells[h].prop == PropOption::Placed(a)) =~= pc.dom().filter(
                    |h: Hex| pc[h] == PropOption::Placed(a),
                ));
                assert(prop_count(pc, a) == size.spec_artifact_count_per_art());
            }
            assert forall|h: Hex| #[trigger] cells.dom().contains(h) implies {
                &&& cells[h].prop is Placed ==> cells[h].template is Some
                &&& cells[h].prop matches PropOption::Placed(p) ==> (!(p is Village) ==> cells[h].template
                    == Option::Some(spec_template_of(p)))
                &&& !(cells[h].prop is CanHave)
                &&& (cells[h].prop matches PropOption::Placed(Prop::Village(id)) ==> 1 <= id
                    <= VILLAGE_COUNT)
            } by {
                assert(pc.dom().contains(h));
                if pc[h] is CanHave {
                    assert(slots(pc).contains(h));
                }
            }
            assert(!adjacent_villages(pc));
            if exists|h: Hex, k: int|
                0 <= k < 6 && tile_has_village(cells, h) && tile_has_village(cells, #[trigger] neighbor(h, k)) {
                let (h, k) = choose|h: Hex, k: int|
                    0 <= k < 6 && tile_has_village(cells, h) && tile_has_village(cells, #[trigger] neighbor(h, k));
                assert(is_village(pc, h));
                assert(is_village(pc, neighbor(h, k)));
            }
            assert(cells.dom() == hexagon(size.spec_radius() as int));
        }
    }
    map
}

} // verus!

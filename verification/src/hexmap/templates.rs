//! Dealing the shuffled terrain tiles onto the shape, and swapping tiles so
//! that every artifact stands on its own terrain.

use vstd::multiset::Multiset;
use vstd::prelude::*;

use rand::rngs::StdRng;
use hexx::storage::HexagonalMap;

use crate::hex::{coords_ok, hexagon, hexagon_order, lemma_hexagon_order, Hex, MAX_RADIUS};
use crate::hexmap::props::TileMap_props;
use crate::hexmap::shape::{cell_true, lemma_hexagon_coords, true_cells, TileMap_shape};
use crate::hexmap::{MapError, MapSize};
use crate::random::shuffle;
use crate::storage::{
    prop_map_entries, template_cells, template_map_entries, template_map_filled, template_map_get,
    template_map_set,
};
use crate::tiles::{spec_template_of, Prop, PropOption, Terrain, TileTemplate};

verus! {

/// `n` copies of `t`.
pub open spec fn copies(t: TileTemplate, n: int) -> Seq<TileTemplate> {
    Seq::new(n as nat, |i: int| t)
}

/// The tiles of a map of the given size: its amount of sand, forest,
/// mountain and water tiles, in that order.
pub open spec fn tile_list(size: MapSize) -> Seq<TileTemplate> {
    let sand = TileTemplate { terrain: Terrain::Sand };
    let forest = TileTemplate { terrain: Terrain::Forest };
    let mountain = TileTemplate { terrain: Terrain::Mountain };
    let water = TileTemplate { terrain: Terrain::Water };
    match size {
        MapSize::Big => copies(sand, sand.spec_amount_big() as int) + copies(
            forest,
            forest.spec_amount_big() as int,
        ) + copies(mountain, mountain.spec_amount_big() as int) + copies(
            water,
            water.spec_amount_big() as int,
        ),
        MapSize::Small => copies(sand, sand.spec_amount_small() as int) + copies(
            forest,
            forest.spec_amount_small() as int,
        ) + copies(mountain, mountain.spec_amount_small() as int) + copies(
            water,
            water.spec_amount_small() as int,
        ),
    }
}

/// How many tiles of template `t` a map of the given size holds.
pub open spec fn amount_for(size: MapSize, t: TileTemplate) -> int {
    match size {
        MapSize::Big => t.spec_amount_big() as int,
        MapSize::Small => t.spec_amount_small() as int,
    }
}

/// `n` copies of `x` hold `t` `n` times if it is `x`, else never.
proof fn lemma_copies_count(x: TileTemplate, n: int, t: TileTemplate)
    requires
        0 <= n,
    ensures
        copies(x, n).to_multiset().count(t) == (if x == t { n } else { 0 }),
    decreases n,
{
    broadcast use vstd::seq_lib::group_to_multiset_ensures;
    broadcast use vstd::multiset::group_multiset_axioms;
    if n == 0 {
        assert(copies(x, n) =~= Seq::<TileTemplate>::empty());
        assert(copies(x, n).to_multiset() =~= Multiset::empty());
    } else {
        lemma_copies_count(x, n - 1, t);
        assert(copies(x, n) =~= copies(x, n - 1).push(x));
        lemma_ms_push_count(copies(x, n - 1), x, t);
    }
}

/// The tile list holds each template as often as the map's size asks.
pub proof fn lemma_tile_list_count(size: MapSize, t: TileTemplate)
    ensures
        tile_list(size).to_multiset().count(t) == amount_for(size, t),
{
    broadcast use vstd::multiset::group_multiset_axioms;
    let sand = TileTemplate { terrain: Terrain::Sand };
    let forest = TileTemplate { terrain: Terrain::Forest };
    let mountain = TileTemplate { terrain: Terrain::Mountain };
    let water = TileTemplate { terrain: Terrain::Water };
    let (a, b, c, d) = match size {
        MapSize::Big => (
            copies(sand, sand.spec_amount_big() as int),
            copies(forest, forest.spec_amount_big() as int),
            copies(mountain, mountain.spec_amount_big() as int),
            copies(water, water.spec_amount_big() as int),
        ),
        MapSize::Small => (
            copies(sand, sand.spec_amount_small() as int),
            copies(forest, forest.spec_amount_small() as int),
            copies(mountain, mountain.spec_amount_small() as int),
            copies(water, water.spec_amount_small() as int),
        ),
    };
    assert(tile_list(size) == a + b + c + d);
    vstd::seq_lib::lemma_multiset_commutative(a + b + c, d);
    vstd::seq_lib::lemma_multiset_commutative(a + b, c);
    vstd::seq_lib::lemma_multiset_commutative(a, b);
    match size {
        MapSize::Big => {
            lemma_copies_count(sand, sand.spec_amount_big() as int, t);
            lemma_copies_count(forest, forest.spec_amount_big() as int, t);
            lemma_copies_count(mountain, mountain.spec_amount_big() as int, t);
            lemma_copies_count(water, water.spec_amount_big() as int, t);
        },
        MapSize::Small => {
            lemma_copies_count(sand, sand.spec_amount_small() as int, t);
            lemma_copies_count(forest, forest.spec_amount_small() as int, t);
            lemma_copies_count(mountain, mountain.spec_amount_small() as int, t);
            lemma_copies_count(water, water.spec_amount_small() as int, t);
        },
    }
}

/// The map after the tiles `tiles` are dealt, in order, onto the cells of
/// the shape met along `keys`.
pub open spec fn deal(
    cells: Map<Hex, Option<TileTemplate>>,
    shape: Map<Hex, bool>,
    keys: Seq<Hex>,
    tiles: Seq<TileTemplate>,
) -> Map<Hex, Option<TileTemplate>>
    decreases keys.len(),
{
    if keys.len() == 0 {
        cells
    } else if shape[keys[0]] {
        deal(cells.insert(keys[0], Option::Some(tiles[0])), shape, keys.drop_first(), tiles.drop_first())
    } else {
        deal(cells, shape, keys.drop_first(), tiles)
    }
}

/// The empty template map of a hexagon.
pub open spec fn empty_cells(radius: int) -> Map<Hex, Option<TileTemplate>> {
    Map::new(|h: Hex| hexagon(radius).contains(h), |h: Hex| None)
}

/// True when an artifact stands on `p` on a tile whose template is not
/// the artifact's own; such a tile must be swapped.
pub open spec fn needs_switch(t: Option<TileTemplate>, p: PropOption) -> bool {
    p matches PropOption::Placed(q) && !(q is Village) && (t matches Option::Some(tt)
        && spec_template_of(q) != tt)
}

/// Every artifact stands on a tile of its own template.
pub open spec fn artifacts_on_terrain(
    props: Map<Hex, PropOption>,
    cells: Map<Hex, Option<TileTemplate>>,
) -> bool {
    forall|h: Hex|
        #![trigger props[h]]
        props.dom().contains(h) && props[h] is Placed && !(props[h]->Placed_0 is Village)
            ==> cells[h] == Option::Some(spec_template_of(props[h]->Placed_0))
}

/// The cells along `keys` where props are not allowed, in order.
pub open spec fn free_keys(props: Map<Hex, PropOption>, keys: Seq<Hex>) -> Seq<Hex>
    decreases keys.len(),
{
    if keys.len() == 0 {
        seq![]
    } else {
        free_keys(props, keys.drop_last()) + (if props[keys.last()] is NotAllowed {
            seq![keys.last()]
        } else {
            seq![]
        })
    }
}

/// What `first_with` finds is a cell of the pool with a tile of template `t`.
proof fn lemma_first_with(cells: Map<Hex, Option<TileTemplate>>, pool: Seq<Hex>, t: TileTemplate, k: int)
    requires
        0 <= k,
    ensures
        first_with(cells, pool, t, k) matches Option::Some(i) ==> k <= i < pool.len() && cells[pool[i]]
            == Option::Some(t),
    decreases pool.len() - k,
{
    if k < pool.len() && cells[pool[k]] != Option::Some(t) {
        lemma_first_with(cells, pool, t, k + 1);
    }
}

/// The swaps can only fail for want of a tile of some template.
proof fn lemma_switch_plan_err(
    cells: Map<Hex, Option<TileTemplate>>,
    props: Map<Hex, PropOption>,
    keys: Seq<Hex>,
    pool: Seq<Hex>,
    freed: Seq<TileTemplate>,
    removed: Seq<Hex>,
)
    ensures
        switch_plan(cells, props, keys, pool, freed, removed) matches Err(e) ==> e is TemplateNotFound,
    decreases keys.len(),
{
    if keys.len() > 0 {
        let h = keys[0];
        if needs_switch(cells[h], props[h]) {
            let target = spec_template_of(props[h]->Placed_0);
            match first_with(cells, pool, target, 0) {
                None => {},
                Option::Some(i) => lemma_switch_plan_err(
                    cells.insert(h, Option::Some(target)),
                    props,
                    keys.drop_first(),
                    pool.remove(i),
                    freed.push(cells[h]->Some_0),
                    removed.push(pool[i]),
                ),
            }
        } else {
            lemma_switch_plan_err(cells, props, keys.drop_first(), pool, freed, removed);
        }
    }
}

/// Number of cells holding a tile of template `t`.
pub open spec fn tcount(cells: Map<Hex, Option<TileTemplate>>, t: TileTemplate) -> nat {
    cells.dom().filter(|h: Hex| cells[h] == Option::Some(t)).len()
}

/// Writing `v` at `h` trades the old value's tile for the new one's.
proof fn lemma_tcount_insert(cells: Map<Hex, Option<TileTemplate>>, h: Hex, v: Option<TileTemplate>, t: TileTemplate)
    requires
        cells.dom().finite(),
        cells.dom().contains(h),
    ensures
        tcount(cells.insert(h, v), t) + (if cells[h] == Option::Some(t) { 1int } else { 0int }) == tcount(cells, t) + (if v
            == Option::Some(t) { 1int } else { 0int }),
{
    let after = cells.insert(h, v);
    let s = cells.dom().filter(|x: Hex| cells[x] == Option::Some(t));
    let s2 = after.dom().filter(|x: Hex| after[x] == Option::Some(t));
    assert(after.dom() =~= cells.dom());
    assert(s.finite());
    if cells[h] == Option::Some(t) {
        if v == Option::Some(t) {
            assert(s2 =~= s);
        } else {
            assert(s2 =~= s.remove(h));
        }
    } else {
        if v == Option::Some(t) {
            assert(s2 =~= s.insert(h));
        } else {
            assert(s2 =~= s);
        }
    }
}

/// Appending `a` adds one to its count.
proof fn lemma_ms_push_count(s: Seq<TileTemplate>, a: TileTemplate, t: TileTemplate)
    ensures
        s.push(a).to_multiset().count(t) == s.to_multiset().count(t) + (if a == t { 1int } else { 0int }),
{
    broadcast use vstd::seq_lib::group_to_multiset_ensures;
    broadcast use vstd::multiset::group_multiset_axioms;
}

/// The free keys of keys without repeats have no repeats.
proof fn lemma_free_keys_no_duplicates(props: Map<Hex, PropOption>, keys: Seq<Hex>)
    requires
        keys.no_duplicates(),
    ensures
        free_keys(props, keys).no_duplicates(),
    decreases keys.len(),
{
    if keys.len() > 0 {
        let rest = keys.drop_last();
        assert forall|i: int, j: int| 0 <= i < rest.len() && 0 <= j < rest.len() && i != j implies rest[i] != rest[j] by {
            assert(rest[i] == keys[i] && rest[j] == keys[j]);
        }
        lemma_free_keys_no_duplicates(props, rest);
        lemma_free_keys(props, rest, keys.last());
        if rest.contains(keys.last()) {
            let k = choose|k: int| 0 <= k < rest.len() && rest[k] == keys.last();
            assert(keys[k] == keys[keys.len() - 1]);
        }
    }
}

/// The free keys are cells of `keys` where props are not allowed.
proof fn lemma_free_keys(props: Map<Hex, PropOption>, keys: Seq<Hex>, h: Hex)
    ensures
        free_keys(props, keys).contains(h) ==> keys.contains(h) && props[h] is NotAllowed,
    decreases keys.len(),
{
    if keys.len() > 0 {
        lemma_free_keys(props, keys.drop_last(), h);
        if free_keys(props, keys).contains(h) {
            let fk = free_keys(props, keys.drop_last());
            let i = choose|i: int| 0 <= i < free_keys(props, keys).len() && free_keys(props, keys)[i] == h;
            if i < fk.len() {
                assert(fk.contains(h));
                let j = choose|j: int| 0 <= j < keys.drop_last().len() && keys.drop_last()[j] == h;
                assert(keys[j] == h);
            } else {
                assert(keys[keys.len() - 1] == h);
            }
        }
    }
}

/// Every artifact stands on a cell of the shape.
pub open spec fn artifacts_fit(shape: Map<Hex, bool>, props: Map<Hex, PropOption>) -> bool {
    forall|h: Hex|
        #![trigger props[h]]
        props.dom().contains(h) && props[h] is Placed && !(props[h]->Placed_0 is Village) ==> cell_true(
            shape,
            h,
        )
}

/// The position, from `i` on, of the first cell of `pool` whose tile has
/// template `t`.
pub open spec fn first_with(
    cells: Map<Hex, Option<TileTemplate>>,
    pool: Seq<Hex>,
    t: TileTemplate,
    i: int,
) -> Option<int>
    decreases pool.len() - i,
{
    if i < 0 || i >= pool.len() {
        None
    } else if cells[pool[i]] == Option::Some(t) {
        Option::Some(i)
    } else {
        first_with(cells, pool, t, i + 1)
    }
}

/// The swaps made along `keys`: each artifact on a tile of another template
/// gets a tile of its own template, taken from the first cell of `pool`
/// that has one (that cell leaves the pool); its old template goes to
/// `freed` and the cell it came from to `removed`. Fails when the pool
/// holds no tile of the needed template.
pub open spec fn switch_plan(
    cells: Map<Hex, Option<TileTemplate>>,
    props: Map<Hex, PropOption>,
    keys: Seq<Hex>,
    pool: Seq<Hex>,
    freed: Seq<TileTemplate>,
    removed: Seq<Hex>,
) -> Result<(Map<Hex, Option<TileTemplate>>, Seq<TileTemplate>, Seq<Hex>), MapError>
    decreases keys.len(),
{
    if keys.len() == 0 {
        Ok((cells, freed, removed))
    } else {
        let h = keys[0];
        if needs_switch(cells[h], props[h]) {
            let target = spec_template_of(props[h]->Placed_0);
            match first_with(cells, pool, target, 0) {
                None => Err(MapError::TemplateNotFound(target)),
                Option::Some(i) => switch_plan(
                    cells.insert(h, Option::Some(target)),
                    props,
                    keys.drop_first(),
                    pool.remove(i),
                    freed.push(cells[h]->Some_0),
                    removed.push(pool[i]),
                ),
            }
        } else {
            switch_plan(cells, props, keys.drop_first(), pool, freed, removed)
        }
    }
}

/// When every artifact already stands on a tile of its own template, the
/// swaps along `keys` swap nothing: the plan succeeds with the cells as
/// they are and nothing freed or removed, and refilling no cells keeps
/// them. So fixing the tiles a second time changes nothing.
pub proof fn lemma_switch_plan_settled(
    cells: Map<Hex, Option<TileTemplate>>,
    props: Map<Hex, PropOption>,
    keys: Seq<Hex>,
    pool: Seq<Hex>,
    freed: Seq<TileTemplate>,
    removed: Seq<Hex>,
)
    requires
        artifacts_on_terrain(props, cells),
        forall|i: int| 0 <= i < keys.len() ==> props.dom().contains(#[trigger] keys[i]),
    ensures
        switch_plan(cells, props, keys, pool, freed, removed) == Ok::<
            (Map<Hex, Option<TileTemplate>>, Seq<TileTemplate>, Seq<Hex>),
            MapError,
        >((cells, freed, removed)),
        forall|free: Seq<TileTemplate>| #[trigger] refill(cells, seq![], free) == cells,
    decreases keys.len(),
{
    if keys.len() > 0 {
        let h = keys[0];
        assert(props.dom().contains(h));
        assert(!needs_switch(cells[h], props[h]));
        assert forall|i: int| 0 <= i < keys.drop_first().len() implies props.dom().contains(
            #[trigger] keys.drop_first()[i],
        ) by {
            assert(keys.drop_first()[i] == keys[i + 1]);
        }
        lemma_switch_plan_settled(cells, props, keys.drop_first(), pool, freed, removed);
    }
}

/// The map after the cells `removed`, in order, get the tiles of `free`
/// from its end.
pub open spec fn refill(
    cells: Map<Hex, Option<TileTemplate>>,
    removed: Seq<Hex>,
    free: Seq<TileTemplate>,
) -> Map<Hex, Option<TileTemplate>>
    decreases removed.len(),
{
    if removed.len() == 0 {
        cells
    } else {
        refill(cells.insert(removed[0], Option::Some(free.last())), removed.drop_first(), free.drop_last())
    }
}

/// The terrain map: the template of each cell of the shape, `None` off it.
#[allow(non_camel_case_types)]
pub struct TileMap_templates {
    map: HexagonalMap<Option<TileTemplate>>,
    size: MapSize,
}

impl TileMap_templates {
    /// The template of each cell.
    pub closed spec fn cells(self) -> Map<Hex, Option<TileTemplate>> {
        template_cells(self.map)
    }

    /// The size of the map.
    pub closed spec fn spec_size(self) -> MapSize {
        self.size
    }

    /// The cells cover exactly the hexagon of the map's radius.
    pub open spec fn wf(self) -> bool {
        self.cells().dom() == hexagon(self.spec_size().spec_radius() as int)
    }

    /// The size of the map.
    pub fn size(&self) -> (r: MapSize)
        ensures
            r == self.spec_size(),
    {
        self.size
    }

    /// The template at `hex`; `None` outside the map.
    pub fn get(&self, hex: Hex) -> (r: Option<Option<TileTemplate>>)
        requires
            coords_ok(hex),
        ensures
            r == (if self.cells().dom().contains(hex) {
                Option::Some(self.cells()[hex])
            } else {
                None
            }),
    {
        template_map_get(&self.map, hex)
    }

    /// Every cell with its template, row by row.
    pub fn iter(&self) -> (r: Vec<(Hex, Option<TileTemplate>)>)
        requires
            self.wf(),
        ensures
            r@.len() == hexagon_order(self.spec_size().spec_radius() as int).len(),
            forall|i: int|
                0 <= i < r@.len() ==> r@[i].0 == hexagon_order(
                    self.spec_size().spec_radius() as int,
                )[i] && r@[i].1 == self.cells()[r@[i].0],
    {
        template_map_entries(&self.map)
    }

    /// Deals the shuffled tiles of the map's size onto the shape's cells in
    /// storage order, then swaps tiles so that every artifact stands on its
    /// own terrain (see `switch_plan` and `refill`). The shuffled orders
    /// depend on the generator and are left unsaid.
    pub fn new(rng: &mut StdRng, shape: &TileMap_shape, props: &TileMap_props) -> (r: Result<
        Self,
        MapError,
    >)
        requires
            shape.complete(),
            props.wf(),
            props.spec_size() == shape.spec_size(),
            artifacts_fit(shape.cells(), props.cells()),
        ensures
            exists|tiles: Seq<TileTemplate>|
                #![trigger tiles.to_multiset()]
                tiles.to_multiset() == tile_list(shape.spec_size()).to_multiset() && match switch_plan(
                    deal(
                        empty_cells(shape.spec_size().spec_radius() as int),
                        shape.cells(),
                        hexagon_order(shape.spec_size().spec_radius() as int),
                        tiles,
                    ),
                    props.cells(),
                    hexagon_order(shape.spec_size().spec_radius() as int),
                    free_keys(props.cells(), hexagon_order(shape.spec_size().spec_radius() as int)),
                    seq![],
                    seq![],
                ) {
                    Err(e) => r == Err::<Self, MapError>(e),
                    Ok((c, freed, removed)) => r matches Ok(t) && t.wf() && t.spec_size()
                        == shape.spec_size() && exists|free: Seq<TileTemplate>|
                        free.to_multiset() == freed.to_multiset() && t.cells() == refill(
                            c,
                            removed,
                            free,
                        ),
                },
            r matches Ok(t) ==> forall|h: Hex|
                #[trigger] t.cells().dom().contains(h) ==> (t.cells()[h] is Some <==> cell_true(
                    shape.cells(),
                    h,
                )),
            r matches Ok(t) ==> artifacts_on_terrain(props.cells(), t.cells()),
            r matches Ok(t) ==> forall|tt: TileTemplate|
                #[trigger] tcount(t.cells(), tt) == amount_for(shape.spec_size(), tt),
            r matches Err(e) ==> e is TemplateNotFound,
    {
        let size = shape.size();
        let radius = size.radius();
        let ghost keys = hexagon_order(radius as int);
        let ghost sc = shape.cells();
        proof {
            lemma_hexagon_order(radius as int);
        }
        let tiles = Self::prepare_random_tiles(rng, size);
        let mut out = Self::deal_tiles(shape, &tiles);
        let ghost dealt = out.cells();
        proof {
            assert forall|h: Hex|
                props.cells().dom().contains(h) && props.cells()[h] is Placed && !(props.cells()[h]->Placed_0 is Village)
                implies dealt[h] is Some by {
                assert(cell_true(sc, h));
            }
        }
        let fixed = out.fix_tiles_on_artifacts(rng, props);
        proof {
            lemma_switch_plan_err(dealt, props.cells(), keys, free_keys(props.cells(), keys), seq![], seq![]);
            assert(tiles@.to_multiset() == tile_list(size).to_multiset());
            assert forall|t: TileTemplate| #[trigger] tcount(dealt, t) == amount_for(size, t) by {
                lemma_tile_list_count(size, t);
            }
        }
        match fixed {
            Ok(()) => {
                proof {
                    assert forall|h: Hex| #[trigger] out.cells().dom().contains(h) implies (out.cells()[h] is Some <==> cell_true(sc, h)) by {
                        assert(dealt.dom().contains(h));
                    }
                }
                Ok(out)
            },
            Err(e) => Err(e),
        }
    }

    /// Deals `tiles`, in order, onto the cells of the shape in storage order
    /// (see `deal`); cells off the shape get no tile.
    fn deal_tiles(shape: &TileMap_shape, tiles: &Vec<TileTemplate>) -> (r: Self)
        requires
            shape.complete(),
            tiles@.len() == shape.spec_size().spec_tile_count(),
        ensures
            r.wf(),
            r.spec_size() == shape.spec_size(),
            r.cells() == deal(
                empty_cells(shape.spec_size().spec_radius() as int),
                shape.cells(),
                hexagon_order(shape.spec_size().spec_radius() as int),
                tiles@,
            ),
            forall|h: Hex|
                #[trigger] r.cells().dom().contains(h) ==> (r.cells()[h] is Some <==> cell_true(
                    shape.cells(),
                    h,
                )),
            forall|t: TileTemplate| #[trigger] tcount(r.cells(), t) == tiles@.to_multiset().count(t),
    {
        let size = shape.size();
        let radius = size.radius();
        let ghost keys = hexagon_order(radius as int);
        let ghost sc = shape.cells();
        proof {
            lemma_hexagon_order(radius as int);
        }
        let mut map = template_map_filled(radius, None);
        let entries = shape.iter();
        let ghost todo0 = true_cells(sc);
        let ghost mut todo = todo0;
        proof {
            assert(keys.skip(0) =~= keys);
            assert(tiles@.skip(0) =~= tiles@);
            assert(template_cells(map) =~= empty_cells(radius as int));
            assert forall|t: TileTemplate| #[trigger] tcount(template_cells(map), t) == tiles@.take(0).to_multiset().count(t) by {
                broadcast use vstd::seq_lib::group_to_multiset_ensures;
                broadcast use vstd::multiset::group_multiset_axioms;
                let cells = template_cells(map);
                assert(cells.dom().filter(|h: Hex| cells[h] == Option::Some(t)) =~= Set::empty());
                assert(tiles@.take(0) =~= Seq::<TileTemplate>::empty());
                assert(tiles@.take(0).to_multiset() =~= Multiset::empty());
            }
        }
        let mut k: usize = 0;
        let mut i: usize = 0;
        while i < entries.len()
            invariant
                radius == size.spec_radius(),
                0 <= radius <= 6,
                keys == hexagon_order(radius as int),
                keys.no_duplicates(),
                keys.to_set() == hexagon(radius as int),
                hexagon(radius as int).finite(),
                sc.dom() == hexagon(radius as int),
                entries@.len() == keys.len(),
                forall|j: int|
                    #![trigger entries@[j]]
                    0 <= j < entries@.len() ==> entries@[j].0 == keys[j] && entries@[j].1 == sc[keys[j]],
                i <= entries.len(),
                tiles@.len() == size.spec_tile_count(),
                todo.subset_of(true_cells(sc)),
                todo.len() + k == size.spec_tile_count(),
                forall|j: int| i <= j < keys.len() && sc[keys[j]] ==> todo.contains(#[trigger] keys[j]),
                forall|j: int| 0 <= j < i ==> !todo.contains(#[trigger] keys[j]),
                template_cells(map).dom() == hexagon(radius as int),
                forall|j: int| i <= j < keys.len() ==> template_cells(map)[#[trigger] keys[j]] is None,
                forall|j: int|
                    0 <= j < i ==> (template_cells(map)[#[trigger] keys[j]] is Some <==> sc[keys[j]]),
                forall|t: TileTemplate| #[trigger] tcount(template_cells(map), t) == tiles@.take(k as int).to_multiset().count(t),
                deal(empty_cells(radius as int), sc, keys, tiles@) == deal(
                    template_cells(map),
                    sc,
                    keys.skip(i as int),
                    tiles@.skip(k as int),
                ),
            decreases entries.len() - i,
        {
            let (hex, in_shape) = entries[i];
            let ghost before = template_cells(map);
            proof {
                lemma_hexagon_coords(radius as int, hex);
                assert(keys.skip(i as int)[0] == hex);
                assert(keys.skip(i as int).drop_first() =~= keys.skip(i + 1));
            }
            if in_shape {
                proof {
                    assert(todo.contains(hex));
                    vstd::set_lib::lemma_len_subset(todo, true_cells(sc));
                    assert(true_cells(sc).finite());
                    assert(todo.finite());
                    assert(todo.len() > 0) by {
                        if todo.len() == 0 {
                            assert(todo =~= Set::empty());
                        }
                    }
                }
                template_map_set(&mut map, hex, Option::Some(tiles[k]));
                proof {
                    assert forall|t: TileTemplate| #[trigger] tcount(template_cells(map), t) == tiles@.take(k + 1).to_multiset().count(t) by {
                        lemma_tcount_insert(before, hex, Option::Some(tiles@[k as int]), t);
                        assert(tiles@.take(k + 1) =~= tiles@.take(k as int).push(tiles@[k as int]));
                        lemma_ms_push_count(tiles@.take(k as int), tiles@[k as int], t);
                    }
                    assert(tiles@.skip(k as int)[0] == tiles@[k as int]);
                    assert(tiles@.skip(k as int).drop_first() =~= tiles@.skip(k + 1));
                    let old_todo = todo;
                    todo = todo.remove(hex);
                    assert forall|j: int| i + 1 <= j < keys.len() && sc[keys[j]] implies todo.contains(
                        #[trigger] keys[j],
                    ) by {
                        assert(keys[j] != keys[i as int]);
                    }
                    assert forall|j: int| 0 <= j < i + 1 implies !todo.contains(#[trigger] keys[j]) by {
                        if j < i {
                            assert(!old_todo.contains(keys[j]));
                        }
                    }
                }
                k = k + 1;
            }
            proof {
                assert(template_cells(map).dom() =~= hexagon(radius as int));
                assert forall|j: int| i + 1 <= j < keys.len() implies template_cells(map)[#[trigger] keys[j]] is None by {
                    assert(keys[j] != keys[i as int]);
                }
                assert forall|j: int| 0 <= j < i + 1 implies (template_cells(map)[#[trigger] keys[j]] is Some <==> sc[keys[j]]) by {
                    if j < i {
                        assert(keys[j] != keys[i as int]);
                    }
                }
            }
            i = i + 1;
        }
        let out = TileMap_templates { map, size };
        let ghost dealt = out.cells();
        proof {
            assert(keys.skip(keys.len() as int) =~= Seq::<Hex>::empty());
            assert(dealt == deal(empty_cells(radius as int), sc, keys, tiles@));
            assert forall|h: Hex| #[trigger] dealt.dom().contains(h) implies (dealt[h] is Some <==> cell_true(sc, h)) by {
                assert(keys.to_set().contains(h));
                let j = choose|j: int| 0 <= j < keys.len() && keys[j] == h;
                assert(template_cells(map)[keys[j]] is Some <==> sc[keys[j]]);
            }
            assert(todo =~= Set::empty()) by {
                assert forall|h: Hex| !todo.contains(h) by {
                    if todo.contains(h) {
                        assert(true_cells(sc).contains(h));
                        assert(keys.to_set().contains(h));
                        let j = choose|j: int| 0 <= j < keys.len() && keys[j] == h;
                        assert(!todo.contains(keys[j]));
                    }
                }
            }
            assert(k == tiles@.len());
            assert(tiles@.take(k as int) =~= tiles@);
        }
        out
    }

    /// Whether the tile under `prop` must be swapped (see `needs_switch`).
    fn needs_a_switch(template: Option<TileTemplate>, prop: PropOption) -> (r: bool)
        requires
            prop matches PropOption::Placed(q) && !(q is Village) ==> template is Some,
        ensures
            r == needs_switch(template, prop),
    {
        if let PropOption::Placed(Prop::Village(_)) = prop {
            return false;
        }
        match template {
            Option::Some(t) => {
                if prop.has_prop() {
                    let p = prop.unwrap().unwrap();
                    p.get_template() != t
                } else {
                    false
                }
            },
            None => false,
        }
    }

    /// Takes out of `tiles` the first cell whose tile has template
    /// `template` and returns it; fails, leaving `tiles` as it is, when
    /// there is none.
    fn first_tile_of_template(template_map: &Self, tiles: &mut Vec<Hex>, template: TileTemplate) -> (r: Result<Hex, MapError>)
        requires
            template_map.wf(),
            forall|i: int| 0 <= i < old(tiles)@.len() ==> template_map.cells().dom().contains(#[trigger] old(tiles)@[i]),
        ensures
            match first_with(template_map.cells(), old(tiles)@, template, 0) {
                None => r == Err::<Hex, MapError>(MapError::TemplateNotFound(template)) && final(tiles)@ == old(tiles)@,
                Option::Some(i) => r == Ok::<Hex, MapError>(old(tiles)@[i]) && final(tiles)@ == old(tiles)@.remove(i),
            },
    {
        let ghost radius = template_map.size.spec_radius() as int;
        let mut i: usize = 0;
        while i < tiles.len()
            invariant
                template_map.wf(),
                radius == template_map.size.spec_radius(),
                0 <= radius <= 6,
                tiles@ == old(tiles)@,
                i <= tiles@.len(),
                forall|j: int| 0 <= j < tiles@.len() ==> template_map.cells().dom().contains(#[trigger] tiles@[j]),
                first_with(template_map.cells(), tiles@, template, 0) == first_with(template_map.cells(), tiles@, template, i as int),
            decreases tiles.len() - i,
        {
            let hex = tiles[i];
            proof {
                assert(template_map.cells().dom().contains(tiles@[i as int]));
                lemma_hexagon_coords(radius, hex);
            }
            if template_map_get(&template_map.map, hex) == Option::Some(Option::Some(template)) {
                let hex = tiles.remove(i);
                return Ok(hex);
            }
            i = i + 1;
        }
        Err(MapError::TemplateNotFound(template))
    }

    /// Swaps tiles so that every artifact stands on its own terrain: see
    /// `switch_plan` for the swaps; the freed tiles, shuffled, then go to the
    /// cells the swapped-in tiles came from (see `refill`).
    fn fix_tiles_on_artifacts(&mut self, rng: &mut StdRng, props: &TileMap_props) -> (r: Result<(), MapError>)
        requires
            old(self).wf(),
            props.wf(),
            props.spec_size() == old(self).spec_size(),
            forall|h: Hex|
                props.cells().dom().contains(h) && props.cells()[h] is Placed && !(props.cells()[h]->Placed_0 is Village)
                    ==> old(self).cells()[h] is Some,
        ensures
            final(self).wf(),
            final(self).spec_size() == old(self).spec_size(),
            match switch_plan(
                old(self).cells(),
                props.cells(),
                hexagon_order(old(self).spec_size().spec_radius() as int),
                free_keys(props.cells(), hexagon_order(old(self).spec_size().spec_radius() as int)),
                seq![],
                seq![],
            ) {
                Err(e) => r == Err::<(), MapError>(e),
                Ok((c, freed, removed)) => r is Ok && exists|free: Seq<TileTemplate>|
                    free.to_multiset() == freed.to_multiset() && final(self).cells() == refill(c, removed, free),
            },
            r is Ok ==> forall|h: Hex| #[trigger] final(self).cells().dom().contains(h) ==> (final(self).cells()[h] is Some <==> old(self).cells()[h] is Some),
            r is Ok ==> artifacts_on_terrain(props.cells(), final(self).cells()),
            r is Ok ==> forall|t: TileTemplate| tcount(final(self).cells(), t) == tcount(old(self).cells(), t),
            artifacts_on_terrain(props.cells(), old(self).cells()) ==> r is Ok && final(self).cells()
                == old(self).cells(),
    {
        let radius = self.size.radius();
        let ghost keys = hexagon_order(radius as int);
        let ghost orig = self.cells();
        let ghost pc = props.cells();
        proof {
            lemma_hexagon_order(radius as int);
            if artifacts_on_terrain(pc, orig) {
                assert forall|i: int| 0 <= i < keys.len() implies pc.dom().contains(#[trigger] keys[i]) by {
                    assert(keys.to_set().contains(keys[i]));
                }
                lemma_switch_plan_settled(orig, pc, keys, free_keys(pc, keys), seq![], seq![]);
            }
        }
        let prop_entries = props.iter();
        let mut pool: Vec<Hex> = Vec::new();
        let mut i: usize = 0;
        while i < prop_entries.len()
            invariant
                keys == hexagon_order(radius as int),
                prop_entries@.len() == keys.len(),
                forall|j: int|
                    #![trigger prop_entries@[j]]
                    0 <= j < prop_entries@.len() ==> prop_entries@[j].0 == keys[j] && prop_entries@[j].1 == pc[keys[j]],
                i <= prop_entries.len(),
                pool@ == free_keys(pc, keys.take(i as int)),
            decreases prop_entries.len() - i,
        {
            let (hex, prop) = prop_entries[i];
            proof {
                assert(keys.take(i + 1).drop_last() =~= keys.take(i as int));
            }
            if let PropOption::NotAllowed = prop {
                pool.push(hex);
            }
            proof {
                assert(pool@ =~= free_keys(pc, keys.take(i + 1)));
            }
            i = i + 1;
        }
        proof {
            assert(keys.take(keys.len() as int) =~= keys);
            assert(pool@ == free_keys(pc, keys));
            assert forall|m: int| 0 <= m < pool@.len() implies pc.dom().contains(#[trigger] pool@[m]) && pc[pool@[m]] is NotAllowed by {
                lemma_free_keys(pc, keys, pool@[m]);
                assert(pool@.contains(pool@[m]));
            }
        }
        let ghost pool0 = pool@;
        proof {
            lemma_free_keys_no_duplicates(pc, keys);
        }
        let ghost mut targets: Seq<TileTemplate> = seq![];
        let snapshot = template_map_entries(&self.map);
        let mut freed: Vec<TileTemplate> = Vec::new();
        let mut removed: Vec<Hex> = Vec::new();
        proof {
            assert(keys.skip(0) =~= keys);
        }
        let mut i: usize = 0;
        while i < snapshot.len()
            invariant
                self.wf(),
                self.size == old(self).size,
                radius == self.size.spec_radius(),
                0 <= radius <= 6,
                keys == hexagon_order(radius as int),
                keys.no_duplicates(),
                keys.to_set() == hexagon(radius as int),
                orig.dom() == hexagon(radius as int),
                pc.dom() == hexagon(radius as int),
                snapshot@.len() == keys.len(),
                forall|j: int|
                    #![trigger snapshot@[j]]
                    0 <= j < snapshot@.len() ==> snapshot@[j].0 == keys[j] && snapshot@[j].1 == orig[keys[j]],
                prop_entries@.len() == keys.len(),
                forall|j: int|
                    #![trigger prop_entries@[j]]
                    0 <= j < prop_entries@.len() ==> prop_entries@[j].0 == keys[j] && prop_entries@[j].1 == pc[keys[j]],
                forall|h: Hex|
                    pc.dom().contains(h) && pc[h] is Placed && !(pc[h]->Placed_0 is Village) ==> orig[h] is Some,
                i <= snapshot.len(),
                forall|j: int| i <= j < keys.len() ==> self.cells()[#[trigger] keys[j]] == orig[keys[j]],
                forall|h: Hex| #[trigger] pc.dom().contains(h) && pc[h] is NotAllowed ==> self.cells()[h] == orig[h],
                forall|h: Hex| #[trigger] self.cells().dom().contains(h) ==> (self.cells()[h] is Some <==> orig[h] is Some),
                forall|m: int| 0 <= m < pool@.len() ==> pc.dom().contains(#[trigger] pool@[m]) && pc[pool@[m]] is NotAllowed,
                forall|m: int|
                    0 <= m < removed@.len() ==> pc.dom().contains(#[trigger] removed@[m]) && pc[removed@[m]] is NotAllowed
                        && orig[removed@[m]] is Some,
                freed@.len() == removed@.len(),
                hexagon(radius as int).finite(),
                targets.len() == removed@.len(),
                forall|m: int| 0 <= m < removed@.len() ==> self.cells()[#[trigger] removed@[m]] == Option::Some(targets[m]),
                forall|t: TileTemplate|
                    #[trigger] tcount(self.cells(), t) + freed@.to_multiset().count(t) == tcount(orig, t) + targets.to_multiset().count(t),
                removed@.no_duplicates(),
                pool@.no_duplicates(),
                forall|m: int| 0 <= m < removed@.len() ==> !pool@.contains(#[trigger] removed@[m]),
                pool0 == free_keys(pc, keys),
                orig == old(self).cells(),
                pc == props.cells(),
                forall|j: int|
                    0 <= j < i && pc[#[trigger] keys[j]] is Placed && !(pc[keys[j]]->Placed_0 is Village) ==> self.cells()[keys[j]]
                        == Option::Some(spec_template_of(pc[keys[j]]->Placed_0)),
                switch_plan(orig, pc, keys, pool0, seq![], seq![]) == switch_plan(
                    self.cells(),
                    pc,
                    keys.skip(i as int),
                    pool@,
                    freed@,
                    removed@,
                ),
            decreases snapshot.len() - i,
        {
            let (hex, template) = snapshot[i];
            let prop = prop_entries[i].1;
            let ghost before = self.cells();
            proof {
                lemma_hexagon_coords(radius as int, hex);
                assert(keys.skip(i as int)[0] == hex);
                assert(keys.skip(i as int).drop_first() =~= keys.skip(i + 1));
                assert(pc.dom().contains(hex));
                assert(before[hex] == orig[hex]);
                assert(template == orig[hex]);
                assert(prop_entries@[i as int].0 == keys[i as int]);
                assert(prop == pc[hex]);
                if pc[hex] is Placed && !(pc[hex]->Placed_0 is Village) {
                    assert(orig[hex] is Some);
                }
                assert(keys.skip(i as int).len() > 0);
            }
            if Self::needs_a_switch(template, prop) {
                let target = prop.unwrap().unwrap().get_template();
                let ghost old_pool = pool@;
                let removed_hex = match Self::first_tile_of_template(self, &mut pool, target) {
                    Ok(h) => h,
                    Err(e) => {
                        proof {
                            assert(first_with(before, old_pool, target, 0) is None);
                            assert(switch_plan(before, pc, keys.skip(i as int), old_pool, freed@, removed@)
                                == Err::<(Map<Hex, Option<TileTemplate>>, Seq<TileTemplate>, Seq<Hex>), MapError>(
                                MapError::TemplateNotFound(target)));
                            assert(e == MapError::TemplateNotFound(target));
                            assert(pool0 == free_keys(pc, keys));
                            assert(switch_plan(orig, pc, keys, pool0, seq![], seq![]) == Err::<(Map<Hex, Option<TileTemplate>>, Seq<TileTemplate>, Seq<Hex>), MapError>(e));
                        }
                        return Err(e);
                    },
                };
                let ghost idx = first_with(before, old_pool, target, 0)->Some_0;
                proof {
                    lemma_first_with(before, old_pool, target, 0);
                    assert(removed_hex == old_pool[idx]);
                    assert(before[removed_hex] == Option::Some(target));
                    assert forall|m: int| 0 <= m < pool@.len() implies pc.dom().contains(#[trigger] pool@[m]) && pc[pool@[m]] is NotAllowed by {
                        if m < idx {
                            assert(pool@[m] == old_pool[m]);
                        } else {
                            assert(pool@[m] == old_pool[m + 1]);
                        }
                    }
                    assert(pc[removed_hex] is NotAllowed);
                    assert(orig[removed_hex] is Some);
                    assert(pc[hex] is Placed);
                }
                let ghost pre_removed = removed@;
                let ghost pre_freed = freed@;
                let ghost old_value = before[hex];
                template_map_set(&mut self.map, hex, Option::Some(target));
                freed.push(template.unwrap());
                removed.push(removed_hex);
                proof {
                    assert forall|t: TileTemplate| #[trigger] tcount(self.cells(), t) + freed@.to_multiset().count(t) == tcount(orig, t)
                        + targets.push(target).to_multiset().count(t) by {
                        lemma_tcount_insert(before, hex, Option::Some(target), t);
                        lemma_ms_push_count(pre_freed, old_value->Some_0, t);
                        lemma_ms_push_count(targets, target, t);
                        assert(tcount(before, t) + pre_freed.to_multiset().count(t) == tcount(orig, t) + targets.to_multiset().count(t));
                    }
                    assert forall|m: int| 0 <= m < removed@.len() implies self.cells()[#[trigger] removed@[m]] == Option::Some(targets.push(target)[m]) by {
                        if m < pre_removed.len() {
                            assert(removed@[m] == pre_removed[m]);
                            assert(pc[pre_removed[m]] is NotAllowed);
                            assert(pre_removed[m] != hex);
                        } else {
                            assert(removed_hex != hex);
                        }
                    }
                    assert forall|a: int, b: int| 0 <= a < pool@.len() && 0 <= b < pool@.len() && a != b implies pool@[a] != pool@[b] by {
                        let a0 = if a < idx { a } else { a + 1 };
                        let b0 = if b < idx { b } else { b + 1 };
                        assert(pool@[a] == old_pool[a0] && pool@[b] == old_pool[b0]);
                    }
                    assert(!pool@.contains(removed_hex)) by {
                        if pool@.contains(removed_hex) {
                            let a = choose|a: int| 0 <= a < pool@.len() && pool@[a] == removed_hex;
                            let a0 = if a < idx { a } else { a + 1 };
                            assert(old_pool[a0] == old_pool[idx]);
                        }
                    }
                    assert forall|m: int| 0 <= m < removed@.len() implies !pool@.contains(#[trigger] removed@[m]) by {
                        if m < pre_removed.len() {
                            assert(removed@[m] == pre_removed[m]);
                            if pool@.contains(pre_removed[m]) {
                                let a = choose|a: int| 0 <= a < pool@.len() && pool@[a] == pre_removed[m];
                                let a0 = if a < idx { a } else { a + 1 };
                                assert(old_pool[a0] == pre_removed[m]);
                                assert(old_pool.contains(pre_removed[m]));
                            }
                        }
                    }
                    assert forall|a: int, b: int| 0 <= a < removed@.len() && 0 <= b < removed@.len() && a != b implies removed@[a] != removed@[b] by {
                        if a == removed@.len() - 1 && b < pre_removed.len() {
                            assert(!old_pool.contains(pre_removed[b]));
                            assert(old_pool.contains(removed_hex));
                        }
                        if b == removed@.len() - 1 && a < pre_removed.len() {
                            assert(!old_pool.contains(pre_removed[a]));
                            assert(old_pool.contains(removed_hex));
                        }
                    }
                    targets = targets.push(target);
                    assert(self.cells().dom() =~= hexagon(radius as int));
                    assert forall|j: int| i + 1 <= j < keys.len() implies self.cells()[#[trigger] keys[j]] == orig[keys[j]] by {
                        assert(keys[j] != keys[i as int]);
                    }
                    assert forall|j: int|
                        0 <= j < i + 1 && pc[#[trigger] keys[j]] is Placed && !(pc[keys[j]]->Placed_0 is Village) implies self.cells()[keys[j]]
                            == Option::Some(spec_template_of(pc[keys[j]]->Placed_0)) by {
                        if j < i {
                            assert(keys[j] != keys[i as int]);
                        }
                    }
                    assert(removed@.last() == removed_hex);
                    assert forall|h: Hex| #[trigger] pc.dom().contains(h) && pc[h] is NotAllowed implies self.cells()[h] == orig[h] by {
                        assert(h != hex);
                    }
                    assert(self.cells()[hex] == Option::Some(spec_template_of(pc[keys[i as int]]->Placed_0)));
                }
            } else {
                proof {
                    if pc[hex] is Placed && !(pc[hex]->Placed_0 is Village) {
                        assert(self.cells()[hex] == Option::Some(spec_template_of(pc[hex]->Placed_0)));
                    }
                }
            }
            i = i + 1;
        }
        let ghost c = self.cells();
        let ghost plan_freed = freed@;
        let ghost plan_removed = removed@;
        proof {
            assert(keys.skip(keys.len() as int) =~= Seq::<Hex>::empty());
            assert(switch_plan(orig, pc, keys, pool0, seq![], seq![]) == Ok::<_, MapError>((c, plan_freed, plan_removed)));
        }
        shuffle(&mut freed, rng);
        let ghost shuffled = freed@;
        proof {
            broadcast use vstd::seq_lib::group_to_multiset_ensures;
            assert(shuffled.len() == shuffled.to_multiset().len());
            assert(plan_freed.len() == plan_freed.to_multiset().len());
            assert(targets.skip(0) =~= targets);
        }
        self.refill_cells(&removed, freed, Ghost(targets));
        proof {
            assert forall|h: Hex| #[trigger] self.cells().dom().contains(h) implies (self.cells()[h] is Some
                <==> orig[h] is Some) by {
                if removed@.contains(h) {
                    let k = choose|k: int| 0 <= k < removed@.len() && removed@[k] == h;
                    assert(orig[removed@[k]] is Some);
                }
            }
            assert forall|h: Hex|
                #![trigger pc[h]]
                pc.dom().contains(h) && pc[h] is Placed && !(pc[h]->Placed_0 is Village) implies self.cells()[h]
                    == Option::Some(spec_template_of(pc[h]->Placed_0)) by {
                if removed@.contains(h) {
                    let k = choose|k: int| 0 <= k < removed@.len() && removed@[k] == h;
                    assert(pc[removed@[k]] is NotAllowed);
                }
            }
            assert forall|t: TileTemplate| tcount(self.cells(), t) == tcount(orig, t) by {
                assert(tcount(self.cells(), t) + targets.to_multiset().count(t) == tcount(c, t) + shuffled.to_multiset().count(t));
            }
        }
        Ok(())
    }

    /// Puts the tiles of `free`, taken from its end, on the cells `removed`
    /// in order (see `refill`). Each of those cells held the tile listed for
    /// it in `targets`, so the count of each template trades those tiles
    /// for the ones of `free`; no other cell changes.
    fn refill_cells(
        &mut self,
        removed: &Vec<Hex>,
        free: Vec<TileTemplate>,
        Ghost(targets): Ghost<Seq<TileTemplate>>,
    )
        requires
            old(self).wf(),
            free@.len() == removed@.len(),
            targets.len() == removed@.len(),
            removed@.no_duplicates(),
            forall|k: int|
                0 <= k < removed@.len() ==> old(self).cells().dom().contains(#[trigger] removed@[k])
                    && old(self).cells()[removed@[k]] == Option::Some(targets[k]),
        ensures
            final(self).wf(),
            final(self).spec_size() == old(self).spec_size(),
            final(self).cells() == refill(old(self).cells(), removed@, free@),
            forall|h: Hex|
                #[trigger] final(self).cells().dom().contains(h) && !removed@.contains(h)
                    ==> final(self).cells()[h] == old(self).cells()[h],
            forall|k: int| 0 <= k < removed@.len() ==> final(self).cells()[#[trigger] removed@[k]] is Some,
            forall|t: TileTemplate|
                #[trigger] tcount(final(self).cells(), t) + targets.to_multiset().count(t)
                    == tcount(old(self).cells(), t) + free@.to_multiset().count(t),
    {
        let radius = self.size.radius();
        let ghost base = self.cells();
        let ghost shuffled = free@;
        let mut freed = free;
        proof {
            lemma_hexagon_order(radius as int);
            assert(removed@.skip(0) =~= removed@);
            assert(shuffled.take(shuffled.len() as int) =~= shuffled);
            assert forall|t: TileTemplate| #[trigger] tcount(self.cells(), t) + targets.take(0).to_multiset().count(t)
                + freed@.to_multiset().count(t) == tcount(base, t) + shuffled.to_multiset().count(t) by {
                broadcast use vstd::seq_lib::group_to_multiset_ensures;
                assert(targets.take(0) =~= Seq::<TileTemplate>::empty());
            }
        }
        let mut m: usize = 0;
        while m < removed.len()
            invariant
                self.wf(),
                self.size == old(self).size,
                radius == self.size.spec_radius(),
                0 <= radius <= 6,
                hexagon(radius as int).finite(),
                base == old(self).cells(),
                base.dom() == hexagon(radius as int),
                m <= removed@.len(),
                freed@.len() + m == removed@.len(),
                shuffled.len() == removed@.len(),
                freed@ == shuffled.take(shuffled.len() - m),
                targets.len() == removed@.len(),
                removed@.no_duplicates(),
                forall|k: int|
                    0 <= k < removed@.len() ==> base.dom().contains(#[trigger] removed@[k]) && base[removed@[k]]
                        == Option::Some(targets[k]),
                forall|k: int| m <= k < removed@.len() ==> self.cells()[#[trigger] removed@[k]] == base[removed@[k]],
                forall|k: int| 0 <= k < m ==> self.cells()[#[trigger] removed@[k]] is Some,
                forall|h: Hex|
                    #[trigger] base.dom().contains(h) && !removed@.contains(h) ==> self.cells()[h] == base[h],
                forall|t: TileTemplate|
                    #[trigger] tcount(self.cells(), t) + targets.take(m as int).to_multiset().count(t)
                        + freed@.to_multiset().count(t) == tcount(base, t) + shuffled.to_multiset().count(t),
                refill(base, removed@, shuffled) == refill(self.cells(), removed@.skip(m as int), freed@),
            decreases removed.len() - m,
        {
            let hex = removed[m];
            proof {
                lemma_hexagon_coords(radius as int, hex);
                assert(removed@.skip(m as int)[0] == hex);
                assert(removed@.skip(m as int).drop_first() =~= removed@.skip(m + 1));
            }
            let ghost before = freed@;
            let ghost cells_before = self.cells();
            let value = freed.pop();
            template_map_set(&mut self.map, hex, value);
            proof {
                assert forall|t: TileTemplate| #[trigger] tcount(self.cells(), t) + targets.take(m + 1).to_multiset().count(t)
                    + freed@.to_multiset().count(t) == tcount(base, t) + shuffled.to_multiset().count(t) by {
                    lemma_tcount_insert(cells_before, hex, value, t);
                    assert(before =~= freed@.push(before.last()));
                    lemma_ms_push_count(freed@, before.last(), t);
                    assert(targets.take(m + 1) =~= targets.take(m as int).push(targets[m as int]));
                    lemma_ms_push_count(targets.take(m as int), targets[m as int], t);
                }
                assert forall|k: int| m + 1 <= k < removed@.len() implies self.cells()[#[trigger] removed@[k]] == base[removed@[k]] by {
                    assert(removed@[k] != removed@[m as int]);
                }
                assert forall|k: int| 0 <= k < m + 1 implies self.cells()[#[trigger] removed@[k]] is Some by {
                    if k < m {
                        assert(removed@[k] != removed@[m as int]);
                    }
                }
                assert forall|h: Hex| #[trigger] base.dom().contains(h) && !removed@.contains(h) implies self.cells()[h] == base[h] by {
                    assert(h != removed@[m as int]);
                }
                assert(self.cells().dom() =~= hexagon(radius as int));
                assert(freed@ =~= shuffled.take(shuffled.len() - (m + 1)));
                assert(before.drop_last() =~= freed@);
            }
            m = m + 1;
        }
        proof {
            assert(removed@.skip(removed@.len() as int) =~= Seq::<Hex>::empty());
            assert(targets.take(targets.len() as int) =~= targets);
            broadcast use vstd::seq_lib::group_to_multiset_ensures;
            assert(freed@.len() == 0);
            assert(freed@.to_multiset() =~= Multiset::empty());
        }
    }

    fn prepare_random_tiles(rng: &mut StdRng, map_size: MapSize) -> (r: Vec<TileTemplate>)
        ensures
            r@.to_multiset() == tile_list(map_size).to_multiset(),
            r@.len() == map_size.spec_tile_count(),
    {
        let mut out: Vec<TileTemplate> = Vec::new();
        let templates = crate::tiles::templates();
        let mut t: usize = 0;
        while t < 4
            invariant
                t <= 4,
                templates@ == crate::tiles::spec_templates(),
                out@ == (if t == 0 {
                    Seq::<TileTemplate>::empty()
                } else if t == 1 {
                    tile_list(map_size).take(tile_prefix(map_size, 1))
                } else if t == 2 {
                    tile_list(map_size).take(tile_prefix(map_size, 2))
                } else if t == 3 {
                    tile_list(map_size).take(tile_prefix(map_size, 3))
                } else {
                    tile_list(map_size)
                }),
            decreases 4 - t,
        {
            let template = templates[t];
            let amount = match map_size {
                MapSize::Big => template.amount_big(),
                MapSize::Small => template.amount_small(),
            };
            let ghost before = out@;
            let mut i: usize = 0;
            while i < amount
                invariant
                    i <= amount,
                    out@ == before + copies(template, i as int),
                decreases amount - i,
            {
                out.push(template);
                i = i + 1;
                assert(out@ =~= before + copies(template, i as int));
            }
            proof {
                match map_size {
                    MapSize::Big => {
                        assert(out@ =~= (if t + 1 == 1 {
                            tile_list(map_size).take(tile_prefix(map_size, 1))
                        } else if t + 1 == 2 {
                            tile_list(map_size).take(tile_prefix(map_size, 2))
                        } else if t + 1 == 3 {
                            tile_list(map_size).take(tile_prefix(map_size, 3))
                        } else {
                            tile_list(map_size)
                        }));
                    },
                    MapSize::Small => {
                        assert(out@ =~= (if t + 1 == 1 {
                            tile_list(map_size).take(tile_prefix(map_size, 1))
                        } else if t + 1 == 2 {
                            tile_list(map_size).take(tile_prefix(map_size, 2))
                        } else if t + 1 == 3 {
                            tile_list(map_size).take(tile_prefix(map_size, 3))
                        } else {
                            tile_list(map_size)
                        }));
                    },
                }
            }
            t = t + 1;
        }
        let ghost before = out@;
        shuffle(&mut out, rng);
        proof {
            broadcast use vstd::seq_lib::group_to_multiset_ensures;
            assert(out@.len() == out@.to_multiset().len());
            assert(before.len() == before.to_multiset().len());
        }
        out
    }
}

/// Number of tiles of the first `t` templates of a map of the given size.
pub open spec fn tile_prefix(size: MapSize, t: int) -> int {
    match size {
        MapSize::Big => if t == 1 {
            34
        } else if t == 2 {
            63
        } else {
            87
        },
        MapSize::Small => if t == 1 {
            24
        } else if t == 2 {
            44
        } else {
            60
        },
    }
}

} // verus!

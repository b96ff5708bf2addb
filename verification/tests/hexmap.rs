use rand::rngs::StdRng;
use rand::SeedableRng;
use tilemap_gen::hex::Hex;
use tilemap_gen::hexmap::{
    try_gen, MapError, MapSize, RawTileState, TileMap, TileMap_props, TileMap_rawShapeGen,
    TileMap_shape, TileMap_templates, BIG_MAP_SIZE, SMALL_MAP_SIZE,
};
use tilemap_gen::tiles::{Prop, PropOption, TileTemplate};

const CENTER: Hex = Hex { x: 0, y: 0 };

fn hex_len(h: Hex) -> i32 {
    h.x.abs().max(h.y.abs()).max((h.x + h.y).abs())
}

fn neighbors(h: Hex) -> [Hex; 6] {
    [(1, 0), (0, 1), (-1, 1), (-1, 0), (0, -1), (1, -1)].map(|(dx, dy)| Hex { x: h.x + dx, y: h.y + dy })
}

fn adjacent(a: Hex, b: Hex) -> bool {
    hex_len(Hex { x: a.x - b.x, y: a.y - b.y }) == 1
}

#[test]
fn map_sizes() {
    assert_eq!(MapSize::Big.tile_count(), BIG_MAP_SIZE);
    assert_eq!(MapSize::Small.tile_count(), SMALL_MAP_SIZE);
    assert_eq!(MapSize::Big.radius(), 6);
    assert_eq!(MapSize::Small.radius(), 5);
    assert_eq!(MapSize::Big.artifact_count(), 15);
    assert_eq!(MapSize::Small.artifact_count(), 10);
}

fn grown(seed: u64, size: MapSize) -> Option<(StdRng, TileMap_rawShapeGen)> {
    let mut rng = StdRng::seed_from_u64(seed);
    match TileMap_rawShapeGen::new(size, &mut rng) {
        Ok(raw) => Some((rng, raw)),
        Err(e) => {
            assert_eq!(e, MapError::OutOfTiles);
            None
        }
    }
}

#[test]
fn raw_shape_takes_exactly_the_map_size() {
    for size in [MapSize::Big, MapSize::Small] {
        let mut ok = 0;
        for seed in 0..30 {
            if let Some((_, raw)) = grown(seed, size) {
                ok += 1;
                let cells = raw.iter();
                assert_eq!(cells.len(), if size == MapSize::Big { 127 } else { 91 });
                let taken = cells.iter().filter(|(_, s)| *s == RawTileState::Taken).count();
                assert_eq!(taken, size.tile_count() as usize);
                assert_eq!(raw.get(CENTER), Some(RawTileState::Taken));
                for (h, s) in cells {
                    let next_to_taken = neighbors(h).iter().any(|n| raw.get(*n) == Some(RawTileState::Taken));
                    assert_eq!(s == RawTileState::FreeToTake, s != RawTileState::Taken && next_to_taken);
                }
            }
        }
        assert!(ok > 0);
    }
}

fn shaped(seed: u64, size: MapSize) -> Option<(StdRng, TileMap_shape)> {
    let (rng, raw) = grown(seed, size)?;
    match TileMap_shape::new(raw) {
        Ok(shape) => Some((rng, shape)),
        Err(e) => {
            assert_eq!(e, MapError::ShapeHasHoles);
            None
        }
    }
}

#[test]
fn shape_keeps_taken_cells_and_has_no_holes() {
    let mut ok = 0;
    for seed in 0..30 {
        if let Some((_, shape)) = shaped(seed, MapSize::Big) {
            ok += 1;
            let cells = shape.iter();
            assert_eq!(cells.iter().filter(|(_, b)| *b).count(), 104);
            assert_eq!(shape.get(CENTER), Some(true));
            for (h, inside) in cells {
                if !inside {
                    assert!(!neighbors(h).iter().all(|n| shape.get(*n) == Some(true)));
                }
            }
        }
    }
    assert!(ok > 0);
}

#[test]
fn shape_from_raw_matches_taken_cells() {
    let (_, raw) = (0..30).find_map(|s| grown(s, MapSize::Small)).unwrap();
    let taken: Vec<Hex> =
        raw.iter().into_iter().filter(|(_, s)| *s == RawTileState::Taken).map(|(h, _)| h).collect();
    match TileMap_shape::new(raw) {
        Ok(shape) => {
            for (h, inside) in shape.iter() {
                assert_eq!(inside, taken.contains(&h));
            }
        }
        Err(e) => assert_eq!(e, MapError::ShapeHasHoles),
    }
}

#[test]
fn edge_lies_in_shape_and_starts_east() {
    let mut ok = 0;
    for seed in 0..30 {
        if let Some((_, shape)) = shaped(seed, MapSize::Big) {
            if let Some(edge) = shape.find_edges() {
                ok += 1;
                assert!(!edge.is_empty());
                assert!(edge.iter().all(|h| shape.get(*h) == Some(true)));
                for w in edge.windows(2) {
                    assert!(adjacent(w[0], w[1]));
                }
                assert!(edge.len() == 1 || adjacent(edge[edge.len() - 1], edge[0]));
                let start = edge[0];
                assert_eq!(start.y, 0);
                assert!(start.x >= 0);
                assert_ne!(shape.get(Hex { x: start.x + 1, y: 0 }), Some(true));
                for x in 0..=start.x {
                    assert_eq!(shape.get(Hex { x, y: 0 }), Some(true));
                }
            }
        }
    }
    assert!(ok > 0);
}

fn propped(seed: u64, size: MapSize) -> Option<(StdRng, TileMap_shape, TileMap_props)> {
    let (mut rng, shape) = shaped(seed, size)?;
    match TileMap_props::new(&mut rng, &shape) {
        Ok(props) => Some((rng, shape, props)),
        Err(e) => {
            assert!(matches!(
                e,
                MapError::EdgeNotClosed
                    | MapError::OutOfEdge { .. }
                    | MapError::VillagesTooClose
                    | MapError::CenterHasProp
                    | MapError::RingOutOfBounds { .. }
            ));
            None
        }
    }
}

#[test]
fn props_fill_every_slot_with_the_artifacts() {
    let mut ok = 0;
    for size in [MapSize::Big, MapSize::Small] {
        for seed in 0..60 {
            if let Some((_, shape, props)) = propped(seed, size) {
                ok += 1;
                let cells = props.iter();
                let per_art = size.artifact_count_per_art();
                for art in [Prop::Monolith, Prop::Bird, Prop::WeirdMonkey, Prop::Dragon, Prop::Book] {
                    let n = cells.iter().filter(|(_, p)| *p == PropOption::Placed(art)).count();
                    assert_eq!(n, per_art);
                }
                assert!(cells.iter().all(|(_, p)| *p != PropOption::CanHave));
                for (h, p) in &cells {
                    if p.has_prop() {
                        assert_eq!(shape.get(*h), Some(true));
                    }
                    if let PropOption::Placed(art) = p {
                        if !matches!(art, Prop::Village(_)) {
                            assert_eq!(hex_len(*h) % 2, 0);
                        }
                    }
                    if let PropOption::Placed(Prop::Village(id)) = p {
                        assert!((1..=10).contains(id));
                        for n in neighbors(*h) {
                            assert!(!matches!(props.get(n), Some(PropOption::Placed(Prop::Village(_)))));
                        }
                    }
                }
            }
        }
    }
    assert!(ok > 0);
}

#[test]
fn templates_cover_the_shape_and_carry_the_artifacts() {
    let mut ok = 0;
    for seed in 0..60 {
        if let Some((mut rng, shape, props)) = propped(seed, MapSize::Big) {
            match TileMap_templates::new(&mut rng, &shape, &props) {
                Ok(templates) => {
                    ok += 1;
                    let cells = templates.iter();
                    for (h, t) in &cells {
                        assert_eq!(t.is_some(), shape.get(*h) == Some(true));
                        if let Some(PropOption::Placed(p)) = props.get(*h) {
                            if !matches!(p, Prop::Village(_)) {
                                assert_eq!(*t, Some(p.get_template()));
                            }
                        }
                    }
                    for t in [
                        TileTemplate::sand(),
                        TileTemplate::forest(),
                        TileTemplate::mountain(),
                        TileTemplate::water(),
                    ] {
                        let n = cells.iter().filter(|(_, c)| *c == Some(t)).count();
                        assert_eq!(n, t.amount_big());
                    }
                }
                Err(e) => assert!(matches!(e, MapError::TemplateNotFound(_))),
            }
        }
    }
    assert!(ok > 0);
}

fn generate(seed: u64, size: MapSize) -> TileMap {
    let mut rng = StdRng::seed_from_u64(seed);
    loop {
        if let Ok(map) = try_gen(&mut rng, size) {
            return map;
        }
    }
}

#[test]
fn generated_map_is_well_formed() {
    for (seed, size) in [(1u64, MapSize::Big), (7, MapSize::Big), (3, MapSize::Small)] {
        let map = generate(seed, size);
        assert_eq!(map.size(), size);
        let tiles = map.iter();
        assert_eq!(tiles.iter().filter(|(_, t)| t.taken()).count(), size.tile_count() as usize);
        assert!(map.get(CENTER).unwrap().taken());
        assert_eq!(map.get(Hex { x: 2_000_000_000, y: -5 }), None);
        assert_eq!(map.get(Hex { x: i32::MAX, y: i32::MIN + 1 }), None);
        let mut villages = 0;
        for (h, t) in &tiles {
            assert_ne!(t.prop, PropOption::CanHave);
            if let PropOption::Placed(p) = t.prop {
                assert!(t.taken());
                match p {
                    Prop::Village(id) => {
                        assert!((1..=10).contains(&id));
                        villages += 1
                    }
                    art => assert_eq!(t.template, Some(art.get_template())),
                }
            }
            assert!(hex_len(*h) <= size.radius() as i32);
        }
        assert!(villages >= 1 && villages <= 10);
        let mut reached = vec![CENTER];
        let mut k = 0;
        while k < reached.len() {
            for n in neighbors(reached[k]) {
                if map.get(n).map_or(false, |t| t.taken()) && !reached.contains(&n) {
                    reached.push(n);
                }
            }
            k += 1;
        }
        assert_eq!(reached.len(), size.tile_count() as usize);
        for art in [Prop::Monolith, Prop::Bird, Prop::WeirdMonkey, Prop::Dragon, Prop::Book] {
            let n = tiles.iter().filter(|(_, t)| t.prop == PropOption::Placed(art)).count();
            assert_eq!(n, size.artifact_count_per_art());
        }
    }
}

#[test]
fn same_seed_same_map() {
    let a = generate(42, MapSize::Big).iter();
    let b = generate(42, MapSize::Big).iter();
    assert_eq!(a, b);
}

#[test]
fn tile_map_joins_templates_and_props() {
    for seed in 0..60 {
        if let Some((mut rng, shape, props)) = propped(seed, MapSize::Big) {
            if let Ok(templates) = TileMap_templates::new(&mut rng, &shape, &props) {
                let t_cells = templates.iter();
                let p_cells = props.iter();
                let map = TileMap::new(templates, props).unwrap();
                for (i, (h, tile)) in map.iter().into_iter().enumerate() {
                    assert_eq!(h, t_cells[i].0);
                    assert_eq!(tile.template, t_cells[i].1);
                    assert_eq!(tile.prop, p_cells[i].1);
                }
                return;
            }
        }
    }
    panic!("no map generated");
}

fn props_error(seed: u64, size: MapSize) -> MapError {
    let mut rng = StdRng::seed_from_u64(seed);
    let raw = TileMap_rawShapeGen::new(size, &mut rng).unwrap();
    let shape = TileMap_shape::new(raw).unwrap();
    match TileMap_props::new(&mut rng, &shape) {
        Ok(_) => panic!("props were placed"),
        Err(e) => e,
    }
}

#[test]
fn seed_with_a_hole() {
    let mut rng = StdRng::seed_from_u64(0);
    let raw = TileMap_rawShapeGen::new(MapSize::Big, &mut rng).unwrap();
    assert!(matches!(TileMap_shape::new(raw), Err(MapError::ShapeHasHoles)));
}

#[test]
fn seed_whose_edge_walk_does_not_close() {
    assert_eq!(props_error(94, MapSize::Big), MapError::EdgeNotClosed);
    let mut rng = StdRng::seed_from_u64(94);
    let raw = TileMap_rawShapeGen::new(MapSize::Big, &mut rng).unwrap();
    let shape = TileMap_shape::new(raw).unwrap();
    assert!(shape.find_edges().is_none());
}

#[test]
fn seed_whose_slot_search_leaves_the_map() {
    assert_eq!(
        props_error(12, MapSize::Big),
        MapError::RingOutOfBounds { hex: Hex { x: 8, y: 0 }, ring: 8 }
    );
}

#[test]
fn seed_with_neighbouring_villages() {
    assert_eq!(props_error(15, MapSize::Big), MapError::VillagesTooClose);
}

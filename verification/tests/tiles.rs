use tilemap_gen::tiles::{prop_color, templates, Prop, PropOption, Terrain, Tile, TileTemplate};

#[test]
fn prop_option_queries() {
    let placed = PropOption::Placed(Prop::Dragon);
    assert!(placed.has_prop());
    assert!(!placed.can_have_prop());
    assert!(placed.is_allowed());
    assert!(!PropOption::CanHave.has_prop());
    assert!(PropOption::CanHave.can_have_prop());
    assert!(PropOption::CanHave.is_allowed());
    assert!(!PropOption::NotAllowed.has_prop());
    assert!(!PropOption::NotAllowed.can_have_prop());
    assert!(!PropOption::NotAllowed.is_allowed());
}

#[test]
fn prop_option_unwrap() {
    assert_eq!(PropOption::Placed(Prop::Book).unwrap(), Some(Prop::Book));
    assert_eq!(PropOption::CanHave.unwrap(), None);
}

#[test]
fn allow_then_give_prop() {
    let mut slot = PropOption::NotAllowed;
    slot.allow_prop();
    assert_eq!(slot, PropOption::CanHave);
    slot.give_prop(Prop::Bird, false);
    assert_eq!(slot, PropOption::Placed(Prop::Bird));
    assert!(slot.has_prop());
}

#[test]
fn forced_prop_replaces_anything() {
    let mut slot = PropOption::NotAllowed;
    slot.give_prop(Prop::Village(3), true);
    assert_eq!(slot, PropOption::Placed(Prop::Village(3)));
    slot.give_prop(Prop::Village(4), true);
    assert_eq!(slot, PropOption::Placed(Prop::Village(4)));
}

#[test]
fn template_constants() {
    let sand = TileTemplate::sand();
    assert_eq!(sand.name(), "SAND");
    assert_eq!(sand.color(), [203, 189, 147, 255]);
    assert_eq!(sand.amount_small(), 24);
    assert_eq!(sand.amount_big(), 34);
    assert_eq!(sand.primary_art(), Prop::Monolith);
    assert_eq!(sand.secondary_art(), None);

    let forest = TileTemplate::forest();
    assert_eq!(forest.name(), "FOREST");
    assert_eq!(forest.color(), [46, 111, 64, 255]);
    assert_eq!(forest.amount_small(), 20);
    assert_eq!(forest.amount_big(), 29);
    assert_eq!(forest.primary_art(), Prop::Bird);
    assert_eq!(forest.secondary_art(), Some(Prop::Book));

    let mountain = TileTemplate::mountain();
    assert_eq!(mountain.name(), "MOUNTAIN");
    assert_eq!(mountain.color(), [140, 140, 140, 255]);
    assert_eq!(mountain.amount_small(), 16);
    assert_eq!(mountain.amount_big(), 24);
    assert_eq!(mountain.primary_art(), Prop::WeirdMonkey);

    let water = TileTemplate::water();
    assert_eq!(water.name(), "WATER");
    assert_eq!(water.color(), [46, 108, 216, 255]);
    assert_eq!(water.amount_small(), 13);
    assert_eq!(water.amount_big(), 17);
    assert_eq!(water.primary_art(), Prop::Dragon);
    assert_eq!(water.terrain(), Terrain::Water);
}

#[test]
fn template_amounts_fill_the_maps() {
    let all = templates();
    let big: usize = all.iter().map(|t| t.amount_big()).sum();
    let small: usize = all.iter().map(|t| t.amount_small()).sum();
    assert_eq!(big, 104);
    assert_eq!(small, 73);
}

#[test]
fn artifacts_know_their_template() {
    assert_eq!(Prop::Monolith.get_template(), TileTemplate::sand());
    assert_eq!(Prop::Bird.get_template(), TileTemplate::forest());
    assert_eq!(Prop::Book.get_template(), TileTemplate::forest());
    assert_eq!(Prop::WeirdMonkey.get_template(), TileTemplate::mountain());
    assert_eq!(Prop::Dragon.get_template(), TileTemplate::water());
}

#[test]
fn template_of_art_lists_the_art() {
    for prop in [Prop::Monolith, Prop::Book, Prop::Bird, Prop::WeirdMonkey, Prop::Dragon] {
        let t = prop.get_template();
        assert!(t.primary_art() == prop || t.secondary_art() == Some(prop));
    }
}

#[test]
fn tile_taken() {
    let tile = Tile { template: Some(TileTemplate::water()), prop: PropOption::NotAllowed };
    assert!(tile.taken());
    let empty = Tile { template: None, prop: PropOption::NotAllowed };
    assert!(!empty.taken());
}

#[test]
fn prop_colors() {
    assert_eq!(prop_color(PropOption::Placed(Prop::Village(3))), [255, 0, 255]);
    assert_eq!(prop_color(PropOption::Placed(Prop::Monolith)), [50, 50, 50]);
    assert_eq!(prop_color(PropOption::Placed(Prop::Book)), [100, 50, 0]);
    assert_eq!(prop_color(PropOption::Placed(Prop::Bird)), [0, 200, 0]);
    assert_eq!(prop_color(PropOption::Placed(Prop::WeirdMonkey)), [100, 0, 100]);
    assert_eq!(prop_color(PropOption::Placed(Prop::Dragon)), [50, 255, 255]);
    assert_eq!(prop_color(PropOption::NotAllowed), [0, 0, 0]);
}

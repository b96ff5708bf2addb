//! Tiles, their terrain templates and the props (villages and artifacts)
//! that can stand on them.

use vstd::prelude::*;

verus! {

/// Something that can stand on a tile: a numbered village or an artifact.
#[derive(PartialEq, Eq, Clone, Copy, Debug, Structural)]
pub enum Prop {
    Village(u8),
    Monolith,
    Book,
    Bird,
    WeirdMonkey,
    Dragon,
}

/// What a tile holds, or may hold, of props.
#[derive(PartialEq, Eq, Clone, Copy, Debug, Structural)]
pub enum PropOption {
    Placed(Prop),
    CanHave,
    NotAllowed,
}

impl PropOption {
    /// True when a prop stands here.
    pub fn has_prop(self) -> (r: bool)
        ensures
            r <==> self is Placed,
    {
        matches!(self, PropOption::Placed(_))
    }

    /// True when this is an empty slot that accepts a prop.
    pub fn can_have_prop(self) -> (r: bool)
        ensures
            r <==> self is CanHave,
    {
        matches!(self, PropOption::CanHave)
    }

    /// True unless props are forbidden here.
    pub fn is_allowed(self) -> (r: bool)
        ensures
            r <==> !(self is NotAllowed),
    {
        !matches!(self, PropOption::NotAllowed)
    }

    /// The prop standing here, or `None` for an empty slot.
    /// Props must be allowed here.
    pub fn unwrap(self) -> (r: Option<Prop>)
        requires
            !(self is NotAllowed),
        ensures
            self matches PropOption::Placed(p) ==> r == Option::Some(p),
            self is CanHave ==> r is None,
    {
        match self {
            PropOption::Placed(prop) => Option::Some(prop),
            PropOption::CanHave => None,
            PropOption::NotAllowed => None,
        }
    }

    /// Turns a place without a prop into an empty slot.
    pub fn allow_prop(&mut self)
        requires
            !(*old(self) is Placed),
        ensures
            *final(self) == PropOption::CanHave,
    {
        *self = PropOption::CanHave;
    }

    /// Puts `prop` here; without `force` the place must be an empty slot.
    pub fn give_prop(&mut self, prop: Prop, force: bool)
        requires
            force || *old(self) is CanHave,
        ensures
            *final(self) == PropOption::Placed(prop),
    {
        *self = PropOption::Placed(prop);
    }
}


/// The RGB colour in which a cell of the prop map is drawn: one colour for
/// villages, one per artifact, black where props are not allowed.
pub open spec fn spec_prop_color(prop: PropOption) -> [u8; 3] {
    match prop {
        PropOption::Placed(Prop::Village(_)) => [255, 0, 255],
        PropOption::Placed(Prop::Monolith) => [50, 50, 50],
        PropOption::Placed(Prop::Book) => [100, 50, 0],
        PropOption::Placed(Prop::Bird) => [0, 200, 0],
        PropOption::Placed(Prop::WeirdMonkey) => [100, 0, 100],
        PropOption::Placed(Prop::Dragon) => [50, 255, 255],
        _ => [0, 0, 0],
    }
}

/// The RGB colour in which a cell of the prop map is drawn (see
/// `spec_prop_color`). An empty slot has no colour: a finished prop map
/// has none.
pub fn prop_color(prop: PropOption) -> (r: [u8; 3])
    requires
        !(prop is CanHave),
    ensures
        r == spec_prop_color(prop),
{
    match prop {
        PropOption::Placed(Prop::Village(_)) => [255, 0, 255],
        PropOption::Placed(Prop::Monolith) => [50, 50, 50],
        PropOption::Placed(Prop::Book) => [100, 50, 0],
        PropOption::Placed(Prop::Bird) => [0, 200, 0],
        PropOption::Placed(Prop::WeirdMonkey) => [100, 0, 100],
        PropOption::Placed(Prop::Dragon) => [50, 255, 255],
        PropOption::CanHave => [0, 0, 0],
        PropOption::NotAllowed => [0, 0, 0],
    }
}

/// The four kinds of terrain a tile can have.
#[derive(PartialEq, Eq, Clone, Copy, Debug, Structural)]
pub enum Terrain {
    Sand,
    Forest,
    Mountain,
    Water,
}

/// A kind of tile: its name, colour, how many of it a map holds, and the
/// artifacts that belong on it.
#[derive(PartialEq, Eq, Clone, Copy, Debug, Structural)]
pub struct TileTemplate {
    pub terrain: Terrain,
}

impl TileTemplate {
    /// The sand template.
    pub fn sand() -> (r: TileTemplate)
        ensures
            r.terrain == Terrain::Sand,
    {
        TileTemplate { terrain: Terrain::Sand }
    }

    /// The forest template.
    pub fn forest() -> (r: TileTemplate)
        ensures
            r.terrain == Terrain::Forest,
    {
        TileTemplate { terrain: Terrain::Forest }
    }

    /// The mountain template.
    pub fn mountain() -> (r: TileTemplate)
        ensures
            r.terrain == Terrain::Mountain,
    {
        TileTemplate { terrain: Terrain::Mountain }
    }

    /// The water template.
    pub fn water() -> (r: TileTemplate)
        ensures
            r.terrain == Terrain::Water,
    {
        TileTemplate { terrain: Terrain::Water }
    }

    /// The terrain of this template.
    pub open spec fn spec_terrain(self) -> Terrain {
        self.terrain
    }

    pub open spec fn spec_amount_small(self) -> usize {
        match self.terrain {
            Terrain::Sand => 24,
            Terrain::Forest => 20,
            Terrain::Mountain => 16,
            Terrain::Water => 13,
        }
    }

    pub open spec fn spec_amount_big(self) -> usize {
        match self.terrain {
            Terrain::Sand => 34,
            Terrain::Forest => 29,
            Terrain::Mountain => 24,
            Terrain::Water => 17,
        }
    }

    pub open spec fn spec_primary_art(self) -> Prop {
        match self.terrain {
            Terrain::Sand => Prop::Monolith,
            Terrain::Forest => Prop::Bird,
            Terrain::Mountain => Prop::WeirdMonkey,
            Terrain::Water => Prop::Dragon,
        }
    }

    pub open spec fn spec_secondary_art(self) -> Option<Prop> {
        match self.terrain {
            Terrain::Forest => Option::Some(Prop::Book),
            _ => None,
        }
    }

    pub open spec fn spec_color(self) -> [u8; 4] {
        match self.terrain {
            Terrain::Sand => [203, 189, 147, 255],
            Terrain::Forest => [46, 111, 64, 255],
            Terrain::Mountain => [140, 140, 140, 255],
            Terrain::Water => [46, 108, 216, 255],
        }
    }

    /// The terrain of this template.
    pub fn terrain(&self) -> (r: Terrain)
        ensures
            r == self.spec_terrain(),
    {
        self.terrain
    }

    /// RGBA colour of tiles of this template.
    pub fn color(&self) -> (r: [u8; 4])
        ensures
            r == self.spec_color(),
    {
        match self.terrain {
            Terrain::Sand => [203, 189, 147, 255],
            Terrain::Forest => [46, 111, 64, 255],
            Terrain::Mountain => [140, 140, 140, 255],
            Terrain::Water => [46, 108, 216, 255],
        }
    }

    /// How many tiles of this template a small map holds.
    pub fn amount_small(&self) -> (r: usize)
        ensures
            r == self.spec_amount_small(),
    {
        match self.terrain {
            Terrain::Sand => 24,
            Terrain::Forest => 20,
            Terrain::Mountain => 16,
            Terrain::Water => 13,
        }
    }

    /// How many tiles of this template a big map holds.
    pub fn amount_big(&self) -> (r: usize)
        ensures
            r == self.spec_amount_big(),
    {
        match self.terrain {
            Terrain::Sand => 34,
            Terrain::Forest => 29,
            Terrain::Mountain => 24,
            Terrain::Water => 17,
        }
    }

    /// The artifact that belongs on tiles of this template.
    pub fn primary_art(&self) -> (r: Prop)
        ensures
            r == self.spec_primary_art(),
    {
        match self.terrain {
            Terrain::Sand => Prop::Monolith,
            Terrain::Forest => Prop::Bird,
            Terrain::Mountain => Prop::WeirdMonkey,
            Terrain::Water => Prop::Dragon,
        }
    }

    /// A second artifact that belongs on tiles of this template, if any.
    pub fn secondary_art(&self) -> (r: Option<Prop>)
        ensures
            r == self.spec_secondary_art(),
    {
        match self.terrain {
            Terrain::Forest => Option::Some(Prop::Book),
            _ => None,
        }
    }

    /// The template's name, in capitals.
    pub fn name(&self) -> (r: &'static str)
        ensures
            r@ == (match self.terrain {
                Terrain::Sand => "SAND"@,
                Terrain::Forest => "FOREST"@,
                Terrain::Mountain => "MOUNTAIN"@,
                Terrain::Water => "WATER"@,
            }),
    {
        match self.terrain {
            Terrain::Sand => "SAND",
            Terrain::Forest => "FOREST",
            Terrain::Mountain => "MOUNTAIN",
            Terrain::Water => "WATER",
        }
    }
}

/// The templates in the order in which a prop's template is looked up.
pub open spec fn spec_templates() -> Seq<TileTemplate> {
    seq![
        TileTemplate { terrain: Terrain::Sand },
        TileTemplate { terrain: Terrain::Forest },
        TileTemplate { terrain: Terrain::Mountain },
        TileTemplate { terrain: Terrain::Water },
    ]
}

/// The templates in the order in which a prop's template is looked up.
pub fn templates() -> (r: [TileTemplate; 4])
    ensures
        r@ == spec_templates(),
{
    [TileTemplate::sand(), TileTemplate::forest(), TileTemplate::mountain(), TileTemplate::water()]
}

/// The template on whose tiles an artifact belongs.
pub open spec fn spec_template_of(prop: Prop) -> TileTemplate {
    match prop {
        Prop::Monolith => TileTemplate { terrain: Terrain::Sand },
        Prop::Bird | Prop::Book => TileTemplate { terrain: Terrain::Forest },
        Prop::WeirdMonkey => TileTemplate { terrain: Terrain::Mountain },
        _ => TileTemplate { terrain: Terrain::Water },
    }
}

impl Prop {
    /// The template on whose tiles this artifact belongs: the first template
    /// that has it as primary or secondary art. Villages belong to none.
    pub fn get_template(self) -> (r: TileTemplate)
        requires
            !(self is Village),
        ensures
            r == spec_template_of(self),
            r.spec_primary_art() == self || r.spec_secondary_art() == Option::Some(self),
    {
        let all = templates();
        let mut i: usize = 0;
        while i < 4
            invariant
                i <= 4,
                all@ == spec_templates(),
                forall|j: int|
                    0 <= j < i ==> all@[j].spec_primary_art() != self
                        && all@[j].spec_secondary_art() != Option::Some(self),
            decreases 4 - i,
        {
            let t = all[i];
            if t.primary_art() == self || t.secondary_art() == Option::Some(self) {
                return t;
            }
            i = i + 1;
        }
        proof {
            assert(all@[0].spec_primary_art() != self);
            assert(all@[1].spec_primary_art() != self);
            assert(all@[2].spec_primary_art() != self);
            assert(all@[3].spec_primary_art() != self);
            assert(all@[1].spec_secondary_art() != Option::Some(self));
        }
        TileTemplate::water()
    }
}

/// One tile of a finished map: its template, if the tile belongs to the
/// map's shape, and what it holds of props.
#[derive(PartialEq, Eq, Clone, Copy, Debug, Structural)]
pub struct Tile {
    pub template: Option<TileTemplate>,
    pub prop: PropOption,
}

impl Tile {
    /// True when the tile belongs to the map's shape.
    pub fn taken(&self) -> (r: bool)
        ensures
            r <==> self.template is Some,
    {
        self.template.is_some()
    }
}

} // verus!

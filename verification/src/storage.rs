//! `hexx`'s `HexagonalMap` storage, holding one kind of value per map, and
//! what each of its operations does to what a map holds.

use hexx::storage::{HexStore, HexagonalMap};
use vstd::prelude::*;

use crate::hex::{hexagon, hexagon_order, Hex, coords_ok, MAX_RADIUS};
use crate::hexmap::RawTileState;
use crate::tiles::{PropOption, Tile, TileTemplate};

verus! {

/// `hexx`'s dense storage for a hexagon of cells around a centre.
#[verifier::external_type_specification]
#[verifier::external_body]
#[verifier::reject_recursive_types(T)]
pub struct ExHexagonalMap<T>(HexagonalMap<T>);

/// What a map of raw shape states holds: its value at each of its coordinates.
pub uninterp spec fn raw_cells(m: HexagonalMap<RawTileState>) -> Map<Hex, RawTileState>;

/// Calls `HexagonalMap::new` around `Hex::ZERO` with a closure that gives
/// every cell `value`: the hexagon of radius `radius`, filled with `value`.
#[verifier::external_body]
pub(crate) fn raw_map_filled(radius: u32, value: RawTileState) -> (m: HexagonalMap<RawTileState>)
    requires
        radius <= MAX_RADIUS,
    ensures
        raw_cells(m) == Map::new(|h: Hex| hexagon(radius as int).contains(h), |h: Hex| value),
{
    HexagonalMap::new(hexx::Hex::ZERO, radius, |_| value)
}

/// Calls `HexStore::get`: the value at `h`, `None` outside the map.
#[verifier::external_body]
pub(crate) fn raw_map_get(m: &HexagonalMap<RawTileState>, h: Hex) -> (r: Option<RawTileState>)
    requires
        coords_ok(h),
    ensures
        r == (if raw_cells(*m).dom().contains(h) {
            Option::Some(raw_cells(*m)[h])
        } else {
            None
        }),
{
    m.get(hexx::Hex::new(h.x, h.y)).copied()
}

/// Calls `IndexMut::index_mut` and writes `value` at `h`, which must lie in
/// the map; nothing else changes.
#[verifier::external_body]
pub(crate) fn raw_map_set(m: &mut HexagonalMap<RawTileState>, h: Hex, value: RawTileState)
    requires
        raw_cells(*old(m)).dom().contains(h),
        coords_ok(h),
    ensures
        raw_cells(*final(m)) == raw_cells(*old(m)).insert(h, value),
{
    m[hexx::Hex::new(h.x, h.y)] = value;
}

/// Calls `HexStore::iter`: every cell with its value, in storage order
/// (row by row, see `hexagon_order`).
#[verifier::external_body]
pub(crate) fn raw_map_entries(m: &HexagonalMap<RawTileState>) -> (es: Vec<(Hex, RawTileState)>)
    ensures
        forall|r: int|
            0 <= r <= MAX_RADIUS && raw_cells(*m).dom() == hexagon(r) ==> es@.len()
                == hexagon_order(r).len() && forall|i: int|
                0 <= i < es@.len() ==> es@[i].0 == hexagon_order(r)[i],
        forall|i: int|
            0 <= i < es@.len() ==> raw_cells(*m).dom().contains(es@[i].0) && es@[i].1
                == raw_cells(*m)[es@[i].0],
{
    m.iter().map(|(h, v)| (Hex { x: h.x, y: h.y }, *v)).collect()
}

/// What a map of shape membership flags holds: its value at each of its coordinates.
pub uninterp spec fn shape_cells(m: HexagonalMap<bool>) -> Map<Hex, bool>;

/// Calls `HexagonalMap::new` around `Hex::ZERO` with a closure that gives
/// every cell `value`: the hexagon of radius `radius`, filled with `value`.
#[verifier::external_body]
pub(crate) fn shape_map_filled(radius: u32, value: bool) -> (m: HexagonalMap<bool>)
    requires
        radius <= MAX_RADIUS,
    ensures
        shape_cells(m) == Map::new(|h: Hex| hexagon(radius as int).contains(h), |h: Hex| value),
{
    HexagonalMap::new(hexx::Hex::ZERO, radius, |_| value)
}

/// Calls `HexStore::get`: the value at `h`, `None` outside the map.
#[verifier::external_body]
pub(crate) fn shape_map_get(m: &HexagonalMap<bool>, h: Hex) -> (r: Option<bool>)
    requires
        coords_ok(h),
    ensures
        r == (if shape_cells(*m).dom().contains(h) {
            Option::Some(shape_cells(*m)[h])
        } else {
            None
        }),
{
    m.get(hexx::Hex::new(h.x, h.y)).copied()
}

/// Calls `IndexMut::index_mut` and writes `value` at `h`, which must lie in
/// the map; nothing else changes.
#[verifier::external_body]
pub(crate) fn shape_map_set(m: &mut HexagonalMap<bool>, h: Hex, value: bool)
    requires
        shape_cells(*old(m)).dom().contains(h),
        coords_ok(h),
    ensures
        shape_cells(*final(m)) == shape_cells(*old(m)).insert(h, value),
{
    m[hexx::Hex::new(h.x, h.y)] = value;
}

/// Calls `HexStore::iter`: every cell with its value, in storage order
/// (row by row, see `hexagon_order`).
#[verifier::external_body]
pub(crate) fn shape_map_entries(m: &HexagonalMap<bool>) -> (es: Vec<(Hex, bool)>)
    ensures
        forall|r: int|
            0 <= r <= MAX_RADIUS && shape_cells(*m).dom() == hexagon(r) ==> es@.len()
                == hexagon_order(r).len() && forall|i: int|
                0 <= i < es@.len() ==> es@[i].0 == hexagon_order(r)[i],
        forall|i: int|
            0 <= i < es@.len() ==> shape_cells(*m).dom().contains(es@[i].0) && es@[i].1
                == shape_cells(*m)[es@[i].0],
{
    m.iter().map(|(h, v)| (Hex { x: h.x, y: h.y }, *v)).collect()
}

/// What a map of tile templates holds: its value at each of its coordinates.
pub uninterp spec fn template_cells(m: HexagonalMap<Option<TileTemplate>>) -> Map<Hex, Option<TileTemplate>>;

/// Calls `HexagonalMap::new` around `Hex::ZERO` with a closure that gives
/// every cell `value`: the hexagon of radius `radius`, filled with `value`.
#[verifier::external_body]
pub(crate) fn template_map_filled(radius: u32, value: Option<TileTemplate>) -> (m: HexagonalMap<Option<TileTemplate>>)
    requires
        radius <= MAX_RADIUS,
    ensures
        template_cells(m) == Map::new(|h: Hex| hexagon(radius as int).contains(h), |h: Hex| value),
{
    HexagonalMap::new(hexx::Hex::ZERO, radius, |_| value)
}

/// Calls `HexStore::get`: the value at `h`, `None` outside the map.
#[verifier::external_body]
pub(crate) fn template_map_get(m: &HexagonalMap<Option<TileTemplate>>, h: Hex) -> (r: Option<Option<TileTemplate>>)
    requires
        coords_ok(h),
    ensures
        r == (if template_cells(*m).dom().contains(h) {
            Option::Some(template_cells(*m)[h])
        } else {
            None
        }),
{
    m.get(hexx::Hex::new(h.x, h.y)).copied()
}

/// Calls `IndexMut::index_mut` and writes `value` at `h`, which must lie in
/// the map; nothing else changes.
#[verifier::external_body]
pub(crate) fn template_map_set(m: &mut HexagonalMap<Option<TileTemplate>>, h: Hex, value: Option<TileTemplate>)
    requires
        template_cells(*old(m)).dom().contains(h),
        coords_ok(h),
    ensures
        template_cells(*final(m)) == template_cells(*old(m)).insert(h, value),
{
    m[hexx::Hex::new(h.x, h.y)] = value;
}

/// Calls `HexStore::iter`: every cell with its value, in storage order
/// (row by row, see `hexagon_order`).
#[verifier::external_body]
pub(crate) fn template_map_entries(m: &HexagonalMap<Option<TileTemplate>>) -> (es: Vec<(Hex, Option<TileTemplate>)>)
    ensures
        forall|r: int|
            0 <= r <= MAX_RADIUS && template_cells(*m).dom() == hexagon(r) ==> es@.len()
                == hexagon_order(r).len() && forall|i: int|
                0 <= i < es@.len() ==> es@[i].0 == hexagon_order(r)[i],
        forall|i: int|
            0 <= i < es@.len() ==> template_cells(*m).dom().contains(es@[i].0) && es@[i].1
                == template_cells(*m)[es@[i].0],
{
    m.iter().map(|(h, v)| (Hex { x: h.x, y: h.y }, *v)).collect()
}

/// What a map of prop slots holds: its value at each of its coordinates.
pub uninterp spec fn prop_cells(m: HexagonalMap<PropOption>) -> Map<Hex, PropOption>;

/// Calls `HexagonalMap::new` around `Hex::ZERO` with a closure that gives
/// every cell `value`: the hexagon of radius `radius`, filled with `value`.
#[verifier::external_body]
pub(crate) fn prop_map_filled(radius: u32, value: PropOption) -> (m: HexagonalMap<PropOption>)
    requires
        radius <= MAX_RADIUS,
    ensures
        prop_cells(m) == Map::new(|h: Hex| hexagon(radius as int).contains(h), |h: Hex| value),
{
    HexagonalMap::new(hexx::Hex::ZERO, radius, |_| value)
}

/// Calls `HexStore::get`: the value at `h`, `None` outside the map.
#[verifier::external_body]
pub(crate) fn prop_map_get(m: &HexagonalMap<PropOption>, h: Hex) -> (r: Option<PropOption>)
    requires
        coords_ok(h),
    ensures
        r == (if prop_cells(*m).dom().contains(h) {
            Option::Some(prop_cells(*m)[h])
        } else {
            None
        }),
{
    m.get(hexx::Hex::new(h.x, h.y)).copied()
}

/// Calls `IndexMut::index_mut` and writes `value` at `h`, which must lie in
/// the map; nothing else changes.
#[verifier::external_body]
pub(crate) fn prop_map_set(m: &mut HexagonalMap<PropOption>, h: Hex, value: PropOption)
    requires
        prop_cells(*old(m)).dom().contains(h),
        coords_ok(h),
    ensures
        prop_cells(*final(m)) == prop_cells(*old(m)).insert(h, value),
{
    m[hexx::Hex::new(h.x, h.y)] = value;
}

/// Calls `HexStore::iter`: every cell with its value, in storage order
/// (row by row, see `hexagon_order`).
#[verifier::external_body]
pub(crate) fn prop_map_entries(m: &HexagonalMap<PropOption>) -> (es: Vec<(Hex, PropOption)>)
    ensures
        forall|r: int|
            0 <= r <= MAX_RADIUS && prop_cells(*m).dom() == hexagon(r) ==> es@.len()
                == hexagon_order(r).len() && forall|i: int|
                0 <= i < es@.len() ==> es@[i].0 == hexagon_order(r)[i],
        forall|i: int|
            0 <= i < es@.len() ==> prop_cells(*m).dom().contains(es@[i].0) && es@[i].1
                == prop_cells(*m)[es@[i].0],
{
    m.iter().map(|(h, v)| (Hex { x: h.x, y: h.y }, *v)).collect()
}

/// What a map of finished tiles holds: its value at each of its coordinates.
pub uninterp spec fn tile_cells(m: HexagonalMap<Tile>) -> Map<Hex, Tile>;

/// Calls `HexagonalMap::new` around `Hex::ZERO` with a closure that gives
/// every cell `value`: the hexagon of radius `radius`, filled with `value`.
#[verifier::external_body]
pub(crate) fn tile_map_filled(radius: u32, value: Tile) -> (m: HexagonalMap<Tile>)
    requires
        radius <= MAX_RADIUS,
    ensures
        tile_cells(m) == Map::new(|h: Hex| hexagon(radius as int).contains(h), |h: Hex| value),
{
    HexagonalMap::new(hexx::Hex::ZERO, radius, |_| value)
}

/// Calls `HexStore::get`: the value at `h`, `None` outside the map.
#[verifier::external_body]
pub(crate) fn tile_map_get(m: &HexagonalMap<Tile>, h: Hex) -> (r: Option<Tile>)
    requires
        coords_ok(h),
    ensures
        r == (if tile_cells(*m).dom().contains(h) {
            Option::Some(tile_cells(*m)[h])
        } else {
            None
        }),
{
    m.get(hexx::Hex::new(h.x, h.y)).copied()
}

/// Calls `IndexMut::index_mut` and writes `value` at `h`, which must lie in
/// the map; nothing else changes.
#[verifier::external_body]
pub(crate) fn tile_map_set(m: &mut HexagonalMap<Tile>, h: Hex, value: Tile)
    requires
        tile_cells(*old(m)).dom().contains(h),
        coords_ok(h),
    ensures
        tile_cells(*final(m)) == tile_cells(*old(m)).insert(h, value),
{
    m[hexx::Hex::new(h.x, h.y)] = value;
}

/// Calls `HexStore::iter`: every cell with its value, in storage order
/// (row by row, see `hexagon_order`).
#[verifier::external_body]
pub(crate) fn tile_map_entries(m: &HexagonalMap<Tile>) -> (es: Vec<(Hex, Tile)>)
    ensures
        forall|r: int|
            0 <= r <= MAX_RADIUS && tile_cells(*m).dom() == hexagon(r) ==> es@.len()
                == hexagon_order(r).len() && forall|i: int|
                0 <= i < es@.len() ==> es@[i].0 == hexagon_order(r)[i],
        forall|i: int|
            0 <= i < es@.len() ==> tile_cells(*m).dom().contains(es@[i].0) && es@[i].1
                == tile_cells(*m)[es@[i].0],
{
    m.iter().map(|(h, v)| (Hex { x: h.x, y: h.y }, *v)).collect()
}

} // verus!

//! How many of each resource the map holds, and how they are scattered
//! over it at start and whenever some run out.
use vstd::prelude::*;

use crate::authentication::random_below;
use crate::world::{resource_at, GameMap, Resource};

verus! {

/// Units of `resource` the map holds per thousand tiles.
pub open spec fn density(resource: Resource) -> nat {
    match resource {
        Resource::Food => 500,
        Resource::Linemate => 300,
        Resource::Deraumere => 150,
        Resource::Sibur => 100,
        Resource::Mendiane => 100,
        Resource::Phiras => 80,
        Resource::Thystame => 50,
    }
}

/// Units of `resource` a map of `tiles` tiles holds: its density, rounded
/// down, and at least one.
pub open spec fn target_units(tiles: nat, resource: Resource) -> nat {
    let n = tiles * density(resource) / 1000;
    if n < 1 {
        1
    } else {
        n
    }
}

/// Units of `resource` a map of `tiles` tiles holds.
pub fn resource_target(tiles: usize, resource: Resource) -> (target: usize)
    ensures
        target == target_units(tiles as nat, resource),
{
    let per_thousand: usize = match resource {
        Resource::Food => 500,
        Resource::Linemate => 300,
        Resource::Deraumere => 150,
        Resource::Sibur => 100,
        Resource::Mendiane => 100,
        Resource::Phiras => 80,
        Resource::Thystame => 50,
    };
    let thousands = tiles / 1000;
    let rest = tiles % 1000;
    proof {
        assert(thousands * per_thousand <= tiles) by (nonlinear_arith)
            requires
                thousands == tiles / 1000,
                per_thousand <= 1000,
        ;
        assert(rest * per_thousand <= 1000 * 1000) by (nonlinear_arith)
            requires
                rest < 1000,
                per_thousand <= 1000,
        ;
        assert(thousands * per_thousand + (rest * per_thousand) / 1000 == tiles * per_thousand / 1000)
            by (nonlinear_arith)
            requires
                thousands == tiles / 1000,
                rest == tiles % 1000,
        ;
    }
    let n = thousands * per_thousand + (rest * per_thousand) / 1000;
    if n < 1 {
        1
    } else {
        n
    }
}

/// `after` is `before` with one more unit on a tile for each placement of
/// `placed` (a tile and a resource), and nothing else changed; every
/// placement is on the map.
pub open spec fn units_added(before: GameMap, after: GameMap, placed: Seq<((usize, usize), Resource)>) -> bool {
    &&& after.spec_width() == before.spec_width()
    &&& after.spec_height() == before.spec_height()
    &&& forall|k: int| 0 <= k < placed.len() ==> before.contains((#[trigger] placed[k]).0.0 as int, placed[k].0.1 as int)
    &&& forall|x: int, y: int, r: Resource|
        #![trigger after.tile(x, y).count(r)]
        before.contains(x, y) ==> after.tile(x, y).count(r) == before.tile(x, y).count(r) + placed.to_multiset().count(
            ((x as usize, y as usize), r),
        )
}

/// The placements of units of `resource` on the tiles `tiles`.
pub open spec fn with_resource(tiles: Seq<(usize, usize)>, resource: Resource) -> Seq<((usize, usize), Resource)> {
    tiles.map_values(|t: (usize, usize)| (t, resource))
}

/// The tiles of the placements `placed`.
pub open spec fn placed_tiles(placed: Seq<((usize, usize), Resource)>) -> Seq<(usize, usize)> {
    placed.map_values(|p: ((usize, usize), Resource)| p.0)
}

/// Adding nothing changes nothing.
proof fn lemma_units_added_none(map: GameMap)
    ensures
        units_added(map, map, Seq::empty()),
{
    broadcast use vstd::seq_lib::group_to_multiset_ensures;

    let none = Seq::<((usize, usize), Resource)>::empty();
    assert forall|p: ((usize, usize), Resource)| #[trigger] none.to_multiset().count(p) == 0 by {
        assert(!none.contains(p));
    }
}

/// Adding units, then more, adds them all.
proof fn lemma_units_added_chain(
    a: GameMap,
    b: GameMap,
    c: GameMap,
    p1: Seq<((usize, usize), Resource)>,
    p2: Seq<((usize, usize), Resource)>,
)
    requires
        units_added(a, b, p1),
        units_added(b, c, p2),
    ensures
        units_added(a, c, p1 + p2),
{
    broadcast use vstd::multiset::group_multiset_axioms;

    vstd::seq_lib::lemma_multiset_commutative(p1, p2);
    assert forall|k: int| 0 <= k < (p1 + p2).len() implies a.contains(
        (#[trigger] (p1 + p2)[k]).0.0 as int,
        (p1 + p2)[k].0.1 as int,
    ) by {
        if k >= p1.len() {
            assert((p1 + p2)[k] == p2[k - p1.len()]);
        } else {
            assert((p1 + p2)[k] == p1[k]);
        }
    }
    assert forall|x: int, y: int, r: Resource| a.contains(x, y) implies #[trigger] c.tile(x, y).count(r) == a.tile(
        x,
        y,
    ).count(r) + (p1 + p2).to_multiset().count(((x as usize, y as usize), r)) by {
        assert(b.contains(x, y));
        let _ = b.tile(x, y).count(r);
    }
}

/// Adding one unit of `resource` on (`x`, `y`) is one placement.
proof fn lemma_unit_added(before: GameMap, after: GameMap, x: usize, y: usize, resource: Resource)
    requires
        before.spec_width() <= usize::MAX,
        before.spec_height() <= usize::MAX,
        before.contains(x as int, y as int),
        before.with_tile(after, x as int, y as int, before.tile(x as int, y as int).plus_one(resource)),
        after.tile(x as int, y as int).count(resource) == before.tile(x as int, y as int).count(resource) + 1,
    ensures
        units_added(before, after, seq![((x, y), resource)]),
{
    broadcast use vstd::multiset::group_multiset_axioms;

    let placed = seq![((x, y), resource)];
    let none = Seq::<((usize, usize), Resource)>::empty();
    lemma_units_added_none(before);
    assert(placed =~= none.push(((x, y), resource)));
    vstd::seq_lib::to_multiset_build(none, ((x, y), resource));
    let t = before.tile(x as int, y as int);
    assert(t.count(resource) < usize::MAX);
    assert forall|a: int, b: int, r: Resource| before.contains(a, b) implies #[trigger] after.tile(a, b).count(r)
        == before.tile(a, b).count(r) + placed.to_multiset().count(((a as usize, b as usize), r)) by {
        if a == x && b == y {
            match resource {
                Resource::Food => {},
                Resource::Linemate => {},
                Resource::Deraumere => {},
                Resource::Sibur => {},
                Resource::Mendiane => {},
                Resource::Phiras => {},
                Resource::Thystame => {},
            }
        } else {
            assert((a as usize, b as usize) != (x, y));
            let _ = after.tile(a, b);
        }
    }
}

/// Scatters `missing` units of `resource` over random tiles; returns the
/// tile of each unit, in order.
fn scatter(map: &mut GameMap, resource: Resource, missing: usize) -> (placed: Vec<(usize, usize)>)
    requires
        old(map).wf(),
        old(map).total(resource) + missing <= usize::MAX,
    ensures
        final(map).wf(),
        final(map).spec_width() == old(map).spec_width(),
        final(map).spec_height() == old(map).spec_height(),
        final(map).total(resource) == old(map).total(resource) + missing,
        forall|r: Resource| r != resource ==> #[trigger] final(map).total(r) == old(map).total(r),
        placed@.len() == missing,
        forall|k: int| 0 <= k < placed@.len() ==> final(map).contains(placed@[k].0 as int, placed@[k].1 as int),
        units_added(*old(map), *final(map), with_resource(placed@, resource)),
        forall|x: int, y: int|
            #![trigger final(map).tile(x, y)]
            old(map).contains(x, y) ==> final(map).tile(x, y).count(resource) >= old(map).tile(x, y).count(resource),
{
    let width = map.width();
    let height = map.height();
    let mut placed: Vec<(usize, usize)> = Vec::new();
    let mut n: usize = 0;
    let ghost start = *map;
    proof {
        lemma_units_added_none(start);
        assert(with_resource(placed@, resource) =~= Seq::empty());
    }
    while n < missing
        invariant
            map.wf(),
            width == map.spec_width(),
            height == map.spec_height(),
            width == start.spec_width(),
            height == start.spec_height(),
            width > 0,
            height > 0,
            n <= missing,
            start.total(resource) + missing <= usize::MAX,
            map.total(resource) == start.total(resource) + n,
            forall|r: Resource| r != resource ==> #[trigger] map.total(r) == start.total(r),
            placed@.len() == n,
            forall|k: int| 0 <= k < placed@.len() ==> map.contains(placed@[k].0 as int, placed@[k].1 as int),
            forall|x: int, y: int|
                #![trigger map.tile(x, y)]
                start.contains(x, y) ==> map.tile(x, y).count(resource) >= start.tile(x, y).count(resource),
            units_added(start, *map, with_resource(placed@, resource)),
        decreases missing - n,
    {
        let x = random_below(width);
        let y = random_below(height);
        let ghost before = *map;
        map.add_unit(x, y, resource);
        proof {
            lemma_unit_added(before, *map, x, y, resource);
            lemma_units_added_chain(start, before, *map, with_resource(placed@, resource), seq![((x, y), resource)]);
            assert(with_resource(placed@.push((x, y)), resource) =~= with_resource(placed@, resource) + seq![((x, y), resource)]);
            assert forall|a: int, b: int|
                #![trigger map.tile(a, b)]
                start.contains(a, b) implies map.tile(a, b).count(resource) >= start.tile(a, b).count(resource) by {
                let _ = before.tile(a, b);
            }
        }
        placed.push((x, y));
        n = n + 1;
    }
    placed
}

/// Scatters over an empty map the units of every resource that a map of
/// its size holds.
pub fn spawn_initial_resources(map: &mut GameMap)
    requires
        old(map).wf(),
        forall|r: Resource| #[trigger] old(map).total(r) == 0,
        old(map).spec_width() * old(map).spec_height() <= usize::MAX,
    ensures
        final(map).wf(),
        final(map).spec_width() == old(map).spec_width(),
        final(map).spec_height() == old(map).spec_height(),
        forall|r: Resource| #[trigger] final(map).total(r) == target_units(
            old(map).spec_width() * old(map).spec_height(),
            r,
        ),
{
    let tiles = map.width() * map.height();
    let ghost start = *map;
    let mut index: usize = 0;
    while index < 7
        invariant
            map.wf(),
            index <= 7,
            map.spec_width() == start.spec_width(),
            map.spec_height() == start.spec_height(),
            tiles == start.spec_width() * start.spec_height(),
            forall|k: nat| k < index ==> #[trigger] map.total(resource_at(k)) == target_units(tiles as nat, resource_at(k)),
            forall|k: nat| index <= k < 7 ==> #[trigger] map.total(resource_at(k)) == 0,
        decreases 7 - index,
    {
        let resource = Resource::at_index(index);
        let target = resource_target(tiles, resource);
        assert(map.total(resource_at(index as nat)) == 0);
        let _ = scatter(map, resource, target);
        proof {
            assert forall|k: nat| k < index + 1 implies #[trigger] map.total(resource_at(k)) == target_units(tiles as nat, resource_at(k)) by {
                if k < index {
                    assert(resource_at(k) != resource);
                }
            }
            assert forall|k: nat| index + 1 <= k < 7 implies #[trigger] map.total(resource_at(k)) == 0 by {
                assert(resource_at(k) != resource);
            }
        }
        index = index + 1;
    }
    proof {
        assert forall|r: Resource| #[trigger] map.total(r) == target_units(start.spec_width() * start.spec_height(), r) by {
            let k = crate::world::resource_index(r);
            assert(resource_at(k) == r);
            assert(map.total(resource_at(k)) == target_units(tiles as nat, resource_at(k)));
        }
    }
}

/// Brings every resource that ran short back to what a map of its size
/// holds, on random tiles; returns the tile of each unit added, in order.
pub fn refill_missing_resources(map: &mut GameMap) -> (changed: Vec<(usize, usize)>)
    requires
        old(map).wf(),
        old(map).spec_width() * old(map).spec_height() <= usize::MAX,
    ensures
        final(map).wf(),
        final(map).spec_width() == old(map).spec_width(),
        final(map).spec_height() == old(map).spec_height(),
        forall|r: Resource| #[trigger] final(map).total(r) == if old(map).total(r) < target_units(
            old(map).spec_width() * old(map).spec_height(),
            r,
        ) {
            target_units(old(map).spec_width() * old(map).spec_height(), r)
        } else {
            old(map).total(r)
        },
        forall|k: int| 0 <= k < changed@.len() ==> final(map).contains(changed@[k].0 as int, changed@[k].1 as int),
        exists|placed: Seq<((usize, usize), Resource)>|
            #![trigger units_added(*old(map), *final(map), placed)]
            placed_tiles(placed) == changed@ && units_added(*old(map), *final(map), placed),
{
    let tiles = map.width() * map.height();
    let ghost start = *map;
    let mut changed: Vec<(usize, usize)> = Vec::new();
    let ghost mut placements: Seq<((usize, usize), Resource)> = Seq::empty();
    proof {
        lemma_units_added_none(start);
        assert(placed_tiles(placements) =~= changed@);
    }
    let mut index: usize = 0;
    while index < 7
        invariant
            map.wf(),
            index <= 7,
            map.spec_width() == start.spec_width(),
            map.spec_height() == start.spec_height(),
            tiles == start.spec_width() * start.spec_height(),
            forall|k: nat| k < index ==> #[trigger] map.total(resource_at(k)) == if start.total(resource_at(k))
                < target_units(tiles as nat, resource_at(k)) {
                target_units(tiles as nat, resource_at(k))
            } else {
                start.total(resource_at(k))
            },
            forall|k: nat| index <= k < 7 ==> #[trigger] map.total(resource_at(k)) == start.total(resource_at(k)),
            forall|k: int| 0 <= k < changed@.len() ==> map.contains(changed@[k].0 as int, changed@[k].1 as int),
            placed_tiles(placements) == changed@,
            units_added(start, *map, placements),
        decreases 7 - index,
    {
        let resource = Resource::at_index(index);
        let target = resource_target(tiles, resource);
        let present = map.units_up_to(resource, target);
        assert(map.total(resource_at(index as nat)) == start.total(resource_at(index as nat)));
        if present < target {
            let ghost before = *map;
            let mut placed = scatter(map, resource, target - present);
            proof {
                assert forall|k: int| 0 <= k < changed@.len() implies map.contains(changed@[k].0 as int, changed@[k].1 as int) by {
                }
            }
            let ghost old_changed = changed@;
            let ghost new_places = placed@;
            changed.append(&mut placed);
            proof {
                lemma_units_added_chain(start, before, *map, placements, with_resource(new_places, resource));
                assert(placed_tiles(placements + with_resource(new_places, resource)) =~= old_changed + new_places);
                placements = placements + with_resource(new_places, resource);
                assert forall|k: int| 0 <= k < changed@.len() implies map.contains(changed@[k].0 as int, changed@[k].1 as int) by {
                    if k >= old_changed.len() {
                        assert(changed@[k] == new_places[k - old_changed.len()]);
                    }
                }
            }
        }
        proof {
            assert forall|k: nat| k < index + 1 implies #[trigger] map.total(resource_at(k)) == if start.total(resource_at(k))
                < target_units(tiles as nat, resource_at(k)) {
                target_units(tiles as nat, resource_at(k))
            } else {
                start.total(resource_at(k))
            } by {
                if k < index {
                    assert(resource_at(k) != resource);
                }
            }
            assert forall|k: nat| index + 1 <= k < 7 implies #[trigger] map.total(resource_at(k)) == start.total(resource_at(k)) by {
                assert(resource_at(k) != resource);
            }
        }
        index = index + 1;
    }
    proof {
        assert forall|r: Resource| #[trigger] map.total(r) == if start.total(r) < target_units(start.spec_width() * start.spec_height(), r) {
            target_units(start.spec_width() * start.spec_height(), r)
        } else {
            start.total(r)
        } by {
            let k = crate::world::resource_index(r);
            assert(resource_at(k) == r);
            assert(map.total(resource_at(k)) == if start.total(resource_at(k))
                < target_units(tiles as nat, resource_at(k)) {
                target_units(tiles as nat, resource_at(k))
            } else {
                start.total(resource_at(k))
            });
        }
    }
    changed
}

} // verus!

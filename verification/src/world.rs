//! Resources, inventories (a tile holds the same kind of stock as a
//! player) and the toroidal world map.
use vstd::prelude::*;

verus! {

/// The seven kinds of objects lying on the map.
#[derive(Clone, Copy, Debug, PartialEq, Eq, Structural)]
pub enum Resource {
    Food,
    Linemate,
    Deraumere,
    Sibur,
    Mendiane,
    Phiras,
    Thystame,
}

/// Index of a resource in the graphical protocol (`bct`, `pin`, `pdr`, `pgt`).
pub open spec fn resource_index(resource: Resource) -> nat {
    match resource {
        Resource::Food => 0,
        Resource::Linemate => 1,
        Resource::Deraumere => 2,
        Resource::Sibur => 3,
        Resource::Mendiane => 4,
        Resource::Phiras => 5,
        Resource::Thystame => 6,
    }
}

/// The resource at a protocol index below seven.
pub open spec fn resource_at(index: nat) -> Resource {
    if index == 0 {
        Resource::Food
    } else if index == 1 {
        Resource::Linemate
    } else if index == 2 {
        Resource::Deraumere
    } else if index == 3 {
        Resource::Sibur
    } else if index == 4 {
        Resource::Mendiane
    } else if index == 5 {
        Resource::Phiras
    } else {
        Resource::Thystame
    }
}

impl Resource {
    /// Index of the resource in the graphical protocol.
    pub fn gui_index(self) -> (index: usize)
        ensures
            index == resource_index(self),
    {
        match self {
            Resource::Food => 0,
            Resource::Linemate => 1,
            Resource::Deraumere => 2,
            Resource::Sibur => 3,
            Resource::Mendiane => 4,
            Resource::Phiras => 5,
            Resource::Thystame => 6,
        }
    }
}


/// A stock of the seven resources: what a tile holds, or what a player carries.
#[derive(Clone, Copy, Debug, PartialEq, Eq, Structural)]
pub struct Inventory {
    pub food: usize,
    pub linemate: usize,
    pub deraumere: usize,
    pub sibur: usize,
    pub mendiane: usize,
    pub phiras: usize,
    pub thystame: usize,
}

impl Inventory {
    /// How many units of `resource` the stock holds.
    pub open spec fn count(self, resource: Resource) -> nat {
        match resource {
            Resource::Food => self.food as nat,
            Resource::Linemate => self.linemate as nat,
            Resource::Deraumere => self.deraumere as nat,
            Resource::Sibur => self.sibur as nat,
            Resource::Mendiane => self.mendiane as nat,
            Resource::Phiras => self.phiras as nat,
            Resource::Thystame => self.thystame as nat,
        }
    }

    /// `other` holds what `self` holds, but for `resource`, of which it holds `amount`.
    pub open spec fn with_count(self, resource: Resource, amount: nat) -> Inventory {
        match resource {
            Resource::Food => Inventory { food: amount as usize, ..self },
            Resource::Linemate => Inventory { linemate: amount as usize, ..self },
            Resource::Deraumere => Inventory { deraumere: amount as usize, ..self },
            Resource::Sibur => Inventory { sibur: amount as usize, ..self },
            Resource::Mendiane => Inventory { mendiane: amount as usize, ..self },
            Resource::Phiras => Inventory { phiras: amount as usize, ..self },
            Resource::Thystame => Inventory { thystame: amount as usize, ..self },
        }
    }

    /// An empty stock.
    pub fn empty() -> (inventory: Inventory)
        ensures
            inventory == Inventory::empty_spec(),
            forall|r: Resource| #[trigger] inventory.count(r) == 0,
    {
        Inventory {
            food: 0,
            linemate: 0,
            deraumere: 0,
            sibur: 0,
            mendiane: 0,
            phiras: 0,
            thystame: 0,
        }
    }

    /// How many units of `resource` the stock holds.
    pub fn resource_count(&self, resource: Resource) -> (count: usize)
        ensures
            count == self.count(resource),
    {
        match resource {
            Resource::Food => self.food,
            Resource::Linemate => self.linemate,
            Resource::Deraumere => self.deraumere,
            Resource::Sibur => self.sibur,
            Resource::Mendiane => self.mendiane,
            Resource::Phiras => self.phiras,
            Resource::Thystame => self.thystame,
        }
    }

    /// Sets the count of `resource` to `amount`.
    pub fn set_count(&mut self, resource: Resource, amount: usize)
        ensures
            *final(self) == old(self).with_count(resource, amount as nat),
    {
        match resource {
            Resource::Food => self.food = amount,
            Resource::Linemate => self.linemate = amount,
            Resource::Deraumere => self.deraumere = amount,
            Resource::Sibur => self.sibur = amount,
            Resource::Mendiane => self.mendiane = amount,
            Resource::Phiras => self.phiras = amount,
            Resource::Thystame => self.thystame = amount,
        }
    }

    /// The stock with one more unit of `resource`, a count never passing the
    /// largest `usize`.
    pub open spec fn plus_one(self, resource: Resource) -> Inventory {
        if self.count(resource) < usize::MAX {
            self.with_count(resource, self.count(resource) + 1)
        } else {
            self
        }
    }

    /// The stock with one unit of `resource` fewer.
    pub open spec fn minus_one(self, resource: Resource) -> Inventory {
        self.with_count(resource, (self.count(resource) - 1) as nat)
    }

    /// Adds one unit of `resource`; a count stays at the largest `usize`.
    pub fn add(&mut self, resource: Resource)
        ensures
            *final(self) == old(self).plus_one(resource),
    {
        let count = self.resource_count(resource);
        self.set_count(resource, count.saturating_add(1));
    }

    /// Removes one unit of `resource`; false, and nothing changes, when there is none.
    pub fn remove(&mut self, resource: Resource) -> (removed: bool)
        ensures
            removed == (old(self).count(resource) > 0),
            removed ==> *final(self) == old(self).minus_one(resource),
            !removed ==> *final(self) == *old(self),
    {
        let count = self.resource_count(resource);
        if count == 0 {
            return false;
        }
        self.set_count(resource, count - 1);
        true
    }

    /// The seven counts in protocol order.
    pub fn quantities(&self) -> (quantities: [usize; 7])
        ensures
            forall|i: int| 0 <= i < 7 ==> quantities@[i] == self.count(resource_at(i as nat)),
    {
        [
            self.food,
            self.linemate,
            self.deraumere,
            self.sibur,
            self.mendiane,
            self.phiras,
            self.thystame,
        ]
    }
}

/// The rectangular world, wrapping around on both axes. The tile at
/// column `x` and row `y` is stored at `y * width + x`.
pub struct GameMap {
    width: usize,
    height: usize,
    tiles: Vec<Inventory>,
}

impl GameMap {
    /// The dimensions are positive and every tile is stored.
    pub closed spec fn wf(self) -> bool {
        &&& self.width > 0
        &&& self.height > 0
        &&& self.tiles@.len() == self.width * self.height
    }

    /// Number of columns.
    pub closed spec fn spec_width(self) -> nat {
        self.width as nat
    }

    /// Number of rows.
    pub closed spec fn spec_height(self) -> nat {
        self.height as nat
    }

    /// What the tile at column `x` and row `y` holds; meaningful inside the map.
    pub closed spec fn tile(self, x: int, y: int) -> Inventory {
        self.tiles@[y * self.width + x]
    }

    /// `x` and `y` name a tile of this map.
    pub open spec fn contains(self, x: int, y: int) -> bool {
        0 <= x < self.spec_width() && 0 <= y < self.spec_height()
    }

    /// `other` is this map with the tile at (`x`, `y`) replaced by `content`.
    pub open spec fn with_tile(self, other: GameMap, x: int, y: int, content: Inventory) -> bool {
        &&& other.spec_width() == self.spec_width()
        &&& other.spec_height() == self.spec_height()
        &&& other.tile(x, y) == content
        &&& forall|a: int, b: int|
            #![trigger other.tile(a, b)]
            self.contains(a, b) && (a != x || b != y) ==> other.tile(a, b) == self.tile(a, b)
    }

    proof fn lemma_index(&self, x: int, y: int)
        requires
            self.contains(x, y),
            self.tiles@.len() == self.width * self.height,
        ensures
            0 <= y * self.width + x < self.tiles@.len(),
            forall|a: int, b: int|
                self.contains(a, b) && (a != x || b != y) ==> #[trigger] (b * self.width + a) != y
                    * self.width + x,
    {
        let w = self.width as int;
        let h = self.height as int;
        assert(0 <= y * w + x < w * h) by (nonlinear_arith)
            requires
                0 <= x < w,
                0 <= y < h,
        ;
        assert forall|a: int, b: int|
            self.contains(a, b) && (a != x || b != y) implies #[trigger] (b * self.width + a) != y
            * self.width + x by {
            if b * w + a == y * w + x {
                assert(b == y && a == x) by (nonlinear_arith)
                    requires
                        0 <= x < w,
                        0 <= a < w,
                        b * w + a == y * w + x,
                ;
            }
        }
    }

    /// An empty map of `width` columns and `height` rows.
    pub fn new(width: usize, height: usize) -> (map: GameMap)
        requires
            width > 0,
            height > 0,
            width * height <= usize::MAX,
        ensures
            map.wf(),
            map.spec_width() == width,
            map.spec_height() == height,
            forall|x: int, y: int| #[trigger]
                map.contains(x, y) ==> map.tile(x, y) == Inventory::empty_spec(),
            forall|r: Resource| #[trigger] map.total(r) == 0,
    {
        let size = width * height;
        let mut tiles: Vec<Inventory> = Vec::new();
        let empty = Inventory::empty();
        while tiles.len() < size
            invariant
                tiles@.len() <= size,
                empty == Inventory::empty_spec(),
                forall|i: int| 0 <= i < tiles@.len() ==> tiles@[i] == Inventory::empty_spec(),
            decreases size - tiles@.len(),
        {
            tiles.push(empty);
        }
        let map = GameMap { width, height, tiles };
        assert forall|x: int, y: int| #[trigger] map.contains(x, y) implies map.tile(x, y)
            == Inventory::empty_spec() by {
            map.lemma_index(x, y);
        }
        proof {
            assert forall|r: Resource| #[trigger] map.total(r) == 0 by {
                lemma_units_empty(map.tiles@, r);
            }
        }
        map
    }

    /// Number of columns.
    pub fn width(&self) -> (width: usize)
        requires
            self.wf(),
        ensures
            width == self.spec_width(),
            width > 0,
    {
        self.width
    }

    /// Number of rows.
    pub fn height(&self) -> (height: usize)
        requires
            self.wf(),
        ensures
            height == self.spec_height(),
            height > 0,
    {
        self.height
    }

    /// The tile at (`x`, `y`), none outside the map.
    pub fn get_tile(&self, x: usize, y: usize) -> (tile: Option<&Inventory>)
        requires
            self.wf(),
        ensures
            tile.is_some() == self.contains(x as int, y as int),
            tile.is_some() ==> *tile.unwrap() == self.tile(x as int, y as int),
    {
        if x < self.width && y < self.height {
            let len = self.tiles.len();
            proof {
                self.lemma_index(x as int, y as int);
            }
            assert(y * self.width <= y * self.width + x < len);
            Some(&self.tiles[y * self.width + x])
        } else {
            None
        }
    }

    /// Replaces what the tile at (`x`, `y`) holds.
    pub fn set_tile(&mut self, x: usize, y: usize, content: Inventory)
        requires
            old(self).wf(),
            old(self).contains(x as int, y as int),
        ensures
            final(self).wf(),
            old(self).with_tile(*final(self), x as int, y as int, content),
    {
        proof {
            self.lemma_index(x as int, y as int);
        }
        let len = self.tiles.len();
        assert(y * self.width <= y * self.width + x < len);
        let index = y * self.width + x;
        let ghost before = *self;
        self.tiles.set(index, content);
        assert forall|a: int, b: int|
            #![trigger self.tile(a, b)]
            before.contains(a, b) && (a != x || b != y) implies self.tile(a, b) == before.tile(
            a,
            b,
        ) by {
            before.lemma_index(a, b);
            assert((b * self.width + a) != y * self.width + x);
        }
    }

    /// Units of `resource` on the whole map.
    pub closed spec fn total(self, resource: Resource) -> nat {
        units_in(self.tiles@, resource)
    }

    /// A well-formed map has no more tiles than a `usize` can count.
    pub proof fn lemma_area_fits(self)
        requires
            self.wf(),
        ensures
            self.spec_width() * self.spec_height() <= usize::MAX,
    {
        assert(self.tiles@.len() == self.tiles.len());
    }

    /// Number of tiles.
    pub fn area(&self) -> (area: usize)
        requires
            self.wf(),
        ensures
            area == self.spec_width() * self.spec_height(),
    {
        self.tiles.len()
    }

    /// Units of `resource` on the whole map, counted up to `limit`.
    pub fn units_up_to(&self, resource: Resource, limit: usize) -> (units: usize)
        ensures
            units == if self.total(resource) < limit {
                self.total(resource)
            } else {
                limit as nat
            },
    {
        let mut sum: usize = 0;
        let mut k: usize = 0;
        while k < self.tiles.len()
            invariant
                k <= self.tiles@.len(),
                sum == if units_in(self.tiles@.take(k as int), resource) < limit {
                    units_in(self.tiles@.take(k as int), resource)
                } else {
                    limit as nat
                },
            decreases self.tiles@.len() - k,
        {
            assert(self.tiles@.take(k + 1).drop_last() =~= self.tiles@.take(k as int));
            let count = self.tiles[k].resource_count(resource);
            if sum < limit {
                if count >= limit - sum {
                    sum = limit;
                } else {
                    sum = sum + count;
                }
            }
            k = k + 1;
        }
        assert(self.tiles@.take(k as int) =~= self.tiles@);
        sum
    }

    /// Adds one unit of `resource` to the tile at (`x`, `y`).
    pub fn add_unit(&mut self, x: usize, y: usize, resource: Resource)
        requires
            old(self).wf(),
            old(self).contains(x as int, y as int),
            old(self).total(resource) < usize::MAX,
        ensures
            final(self).wf(),
            old(self).with_tile(*final(self), x as int, y as int, old(self).tile(x as int, y as int).plus_one(resource)),
            final(self).tile(x as int, y as int).count(resource) == old(self).tile(x as int, y as int).count(resource) + 1,
            final(self).total(resource) == old(self).total(resource) + 1,
            forall|r: Resource| r != resource ==> #[trigger] final(self).total(r) == old(self).total(r),
    {
        proof {
            self.lemma_index(x as int, y as int);
        }
        let len = self.tiles.len();
        assert(y * self.width <= y * self.width + x < len);
        let index = y * self.width + x;
        let ghost before = *self;
        let mut tile = self.tiles[index];
        proof {
            lemma_unit_at_most_total(self.tiles@, index as int, resource);
        }
        tile.add(resource);
        self.tiles.set(index, tile);
        proof {
            assert forall|a: int, b: int|
                #![trigger self.tile(a, b)]
                before.contains(a, b) && (a != x || b != y) implies self.tile(a, b) == before.tile(a, b) by {
                before.lemma_index(a, b);
                assert((b * self.width + a) != y * self.width + x);
            }
            lemma_units_update(before.tiles@, index as int, tile, resource);
            assert forall|r: Resource| r != resource implies #[trigger] self.total(r) == before.total(r) by {
                lemma_units_update(before.tiles@, index as int, tile, r);
            }
        }
    }
}

impl Inventory {
    /// The empty stock.
    pub open spec fn empty_spec() -> Inventory {
        Inventory {
            food: 0,
            linemate: 0,
            deraumere: 0,
            sibur: 0,
            mendiane: 0,
            phiras: 0,
            thystame: 0,
        }
    }
}


/// The name of a resource in the AI protocol.
pub open spec fn resource_name(resource: Resource) -> Seq<char> {
    match resource {
        Resource::Food => "food"@,
        Resource::Linemate => "linemate"@,
        Resource::Deraumere => "deraumere"@,
        Resource::Sibur => "sibur"@,
        Resource::Mendiane => "mendiane"@,
        Resource::Phiras => "phiras"@,
        Resource::Thystame => "thystame"@,
    }
}

/// The resource called `name`, if any.
pub open spec fn resource_named(name: Seq<char>) -> Option<Resource> {
    if name == "food"@ {
        Some(Resource::Food)
    } else if name == "linemate"@ {
        Some(Resource::Linemate)
    } else if name == "deraumere"@ {
        Some(Resource::Deraumere)
    } else if name == "sibur"@ {
        Some(Resource::Sibur)
    } else if name == "mendiane"@ {
        Some(Resource::Mendiane)
    } else if name == "phiras"@ {
        Some(Resource::Phiras)
    } else if name == "thystame"@ {
        Some(Resource::Thystame)
    } else {
        None
    }
}

impl Resource {
    /// The name of the resource in the AI protocol.
    pub fn protocol_name(self) -> (name: &'static str)
        ensures
            name@ == resource_name(self),
    {
        match self {
            Resource::Food => "food",
            Resource::Linemate => "linemate",
            Resource::Deraumere => "deraumere",
            Resource::Sibur => "sibur",
            Resource::Mendiane => "mendiane",
            Resource::Phiras => "phiras",
            Resource::Thystame => "thystame",
        }
    }

    /// The resource called `name`, if any.
    pub fn from_protocol_name(name: &str) -> (resource: Option<Resource>)
        ensures
            resource == resource_named(name@),
    {
        if crate::text::same_text(name, "food") {
            Some(Resource::Food)
        } else if crate::text::same_text(name, "linemate") {
            Some(Resource::Linemate)
        } else if crate::text::same_text(name, "deraumere") {
            Some(Resource::Deraumere)
        } else if crate::text::same_text(name, "sibur") {
            Some(Resource::Sibur)
        } else if crate::text::same_text(name, "mendiane") {
            Some(Resource::Mendiane)
        } else if crate::text::same_text(name, "phiras") {
            Some(Resource::Phiras)
        } else if crate::text::same_text(name, "thystame") {
            Some(Resource::Thystame)
        } else {
            None
        }
    }

    /// The resource at protocol index `index`, below seven.
    pub fn at_index(index: usize) -> (resource: Resource)
        requires
            index < 7,
        ensures
            resource == resource_at(index as nat),
            resource_index(resource) == index,
    {
        if index == 0 {
            Resource::Food
        } else if index == 1 {
            Resource::Linemate
        } else if index == 2 {
            Resource::Deraumere
        } else if index == 3 {
            Resource::Sibur
        } else if index == 4 {
            Resource::Mendiane
        } else if index == 5 {
            Resource::Phiras
        } else {
            Resource::Thystame
        }
    }
}


/// Units of `resource` on the tiles of `tiles`.
pub open spec fn units_in(tiles: Seq<Inventory>, resource: Resource) -> nat
    decreases tiles.len(),
{
    if tiles.len() == 0 {
        0
    } else {
        units_in(tiles.drop_last(), resource) + tiles.last().count(resource)
    }
}

/// Replacing one tile changes the units by the difference.
pub proof fn lemma_units_update(tiles: Seq<Inventory>, i: int, tile: Inventory, resource: Resource)
    requires
        0 <= i < tiles.len(),
    ensures
        units_in(tiles.update(i, tile), resource) == units_in(tiles, resource) - tiles[i].count(resource) + tile.count(
            resource,
        ),
    decreases tiles.len(),
{
    let updated = tiles.update(i, tile);
    if i == tiles.len() - 1 {
        assert(updated.drop_last() =~= tiles.drop_last());
    } else {
        lemma_units_update(tiles.drop_last(), i, tile, resource);
        assert(updated.drop_last() =~= tiles.drop_last().update(i, tile));
    }
}

/// No tile holds more than the total.
pub proof fn lemma_unit_at_most_total(tiles: Seq<Inventory>, i: int, resource: Resource)
    requires
        0 <= i < tiles.len(),
    ensures
        tiles[i].count(resource) <= units_in(tiles, resource),
    decreases tiles.len(),
{
    if i < tiles.len() - 1 {
        lemma_unit_at_most_total(tiles.drop_last(), i, resource);
    }
}

/// Empty tiles hold nothing.
pub proof fn lemma_units_empty(tiles: Seq<Inventory>, resource: Resource)
    requires
        forall|i: int| 0 <= i < tiles.len() ==> #[trigger] tiles[i] == Inventory::empty_spec(),
    ensures
        units_in(tiles, resource) == 0,
    decreases tiles.len(),
{
    if tiles.len() > 0 {
        lemma_units_empty(tiles.drop_last(), resource);
    }
}

} // verus!

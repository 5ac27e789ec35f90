//! Players, eggs and teams.
use vstd::prelude::*;

use crate::constants::{INITIAL_FOOD, INITIAL_LEVEL};
use crate::world::{Inventory, Resource};

verus! {

/// Where a player looks. North is towards smaller rows.
#[derive(Clone, Copy, Debug, PartialEq, Eq, Structural)]
pub enum Orientation {
    North,
    East,
    South,
    West,
}

/// One step forward, as (column, row) deltas.
pub open spec fn forward_delta_spec(orientation: Orientation) -> (int, int) {
    match orientation {
        Orientation::North => (0, -1),
        Orientation::East => (1, 0),
        Orientation::South => (0, 1),
        Orientation::West => (-1, 0),
    }
}

/// One step to the player's right, as (column, row) deltas.
pub open spec fn right_delta_spec(orientation: Orientation) -> (int, int) {
    forward_delta_spec(turned_right(orientation))
}

/// The orientation after a quarter turn clockwise.
pub open spec fn turned_right(orientation: Orientation) -> Orientation {
    match orientation {
        Orientation::North => Orientation::East,
        Orientation::East => Orientation::South,
        Orientation::South => Orientation::West,
        Orientation::West => Orientation::North,
    }
}

/// The orientation after a quarter turn counterclockwise.
pub open spec fn turned_left(orientation: Orientation) -> Orientation {
    match orientation {
        Orientation::North => Orientation::West,
        Orientation::East => Orientation::North,
        Orientation::South => Orientation::East,
        Orientation::West => Orientation::South,
    }
}

/// Number of the orientation in the graphical protocol.
pub open spec fn gui_value_spec(orientation: Orientation) -> nat {
    match orientation {
        Orientation::North => 1,
        Orientation::East => 2,
        Orientation::South => 3,
        Orientation::West => 4,
    }
}

/// The direction the player faces, in eighths of a turn counterclockwise from north.
pub open spec fn sound_index_spec(orientation: Orientation) -> nat {
    match orientation {
        Orientation::North => 0,
        Orientation::West => 2,
        Orientation::South => 4,
        Orientation::East => 6,
    }
}

/// The orientation with graphical number `value` (one to four).
pub open spec fn orientation_of_gui_value(value: nat) -> Orientation {
    if value == 1 {
        Orientation::North
    } else if value == 2 {
        Orientation::East
    } else if value == 3 {
        Orientation::South
    } else {
        Orientation::West
    }
}

impl Orientation {
    /// One step forward.
    pub fn forward_delta(self) -> (delta: (isize, isize))
        ensures
            delta.0 as int == forward_delta_spec(self).0,
            delta.1 as int == forward_delta_spec(self).1,
    {
        match self {
            Orientation::North => (0, -1),
            Orientation::East => (1, 0),
            Orientation::South => (0, 1),
            Orientation::West => (-1, 0),
        }
    }

    /// One step to the right.
    pub fn right_delta(self) -> (delta: (isize, isize))
        ensures
            delta.0 as int == right_delta_spec(self).0,
            delta.1 as int == right_delta_spec(self).1,
    {
        self.turn_right().forward_delta()
    }

    /// A quarter turn clockwise.
    pub fn turn_right(self) -> (turned: Orientation)
        ensures
            turned == turned_right(self),
    {
        match self {
            Orientation::North => Orientation::East,
            Orientation::East => Orientation::South,
            Orientation::South => Orientation::West,
            Orientation::West => Orientation::North,
        }
    }

    /// A quarter turn counterclockwise.
    pub fn turn_left(self) -> (turned: Orientation)
        ensures
            turned == turned_left(self),
    {
        match self {
            Orientation::North => Orientation::West,
            Orientation::East => Orientation::North,
            Orientation::South => Orientation::East,
            Orientation::West => Orientation::South,
        }
    }

    /// Number of the orientation in the graphical protocol.
    pub fn gui_value(self) -> (value: usize)
        ensures
            value == gui_value_spec(self),
    {
        match self {
            Orientation::North => 1,
            Orientation::East => 2,
            Orientation::South => 3,
            Orientation::West => 4,
        }
    }

    /// The direction faced, in eighths of a turn counterclockwise from north.
    pub fn global_sound_index(self) -> (index: usize)
        ensures
            index == sound_index_spec(self),
    {
        match self {
            Orientation::North => 0,
            Orientation::West => 2,
            Orientation::South => 4,
            Orientation::East => 6,
        }
    }

    /// The orientation with graphical number `value`, from one to four.
    pub fn from_gui_value(value: usize) -> (orientation: Orientation)
        requires
            1 <= value <= 4,
        ensures
            orientation == orientation_of_gui_value(value as nat),
            gui_value_spec(orientation) == value,
    {
        if value == 1 {
            Orientation::North
        } else if value == 2 {
            Orientation::East
        } else if value == 3 {
            Orientation::South
        } else {
            Orientation::West
        }
    }
}

/// Moves `value` by `delta` (minus one, zero or one) on a dimension of `size`
/// cells, wrapping around.
pub fn step_coordinate(value: usize, delta: isize, size: usize) -> (moved: usize)
    requires
        value < size,
        -1 <= delta <= 1,
    ensures
        moved as int == (value as int + delta as int) % size as int,
        moved < size,
{
    proof {
        let s = size as int;
        if delta == 1 && value + 1 == size {
            vstd::arithmetic::div_mod::lemma_fundamental_div_mod_converse(s, s, 1, 0);
        } else if delta == -1 && value == 0 {
            vstd::arithmetic::div_mod::lemma_fundamental_div_mod_converse(-1, s, -1, s - 1);
        } else {
            vstd::arithmetic::div_mod::lemma_fundamental_div_mod_converse(
                value as int + delta as int,
                s,
                0,
                value as int + delta as int,
            );
        }
    }
    if delta == 1 {
        if value + 1 == size {
            0
        } else {
            value + 1
        }
    } else if delta == -1 {
        if value == 0 {
            size - 1
        } else {
            value - 1
        }
    } else {
        value
    }
}

/// A connected AI player.
pub struct Player {
    pub id: usize,
    pub team_name: String,
    pub x: usize,
    pub y: usize,
    pub orientation: Orientation,
    pub level: usize,
    pub inventory: Inventory,
    /// The incantation the player is frozen by, if any.
    pub frozen_by: Option<usize>,
    /// When the player next eats, in nanoseconds of game time.
    pub next_food_tick: u64,
}

impl Player {
    /// A player hatched at (`x`, `y`), at the first level, carrying the initial food.
    pub fn new(
        id: usize,
        team_name: String,
        x: usize,
        y: usize,
        orientation: Orientation,
        next_food_tick: u64,
    ) -> (player: Player)
        ensures
            player.id == id,
            player.team_name@ == team_name@,
            player.x == x,
            player.y == y,
            player.orientation == orientation,
            player.level == INITIAL_LEVEL,
            player.inventory == Inventory::empty_spec().with_count(
                Resource::Food,
                INITIAL_FOOD as nat,
            ),
            player.frozen_by.is_none(),
            player.next_food_tick == next_food_tick,
    {
        let mut inventory = Inventory::empty();
        inventory.set_count(Resource::Food, INITIAL_FOOD);
        Player {
            id,
            team_name,
            x,
            y,
            orientation,
            level: INITIAL_LEVEL,
            inventory,
            frozen_by: None,
            next_food_tick,
        }
    }

    /// One step forward on a map of `width` by `height`, wrapping around.
    pub fn move_forward(&mut self, width: usize, height: usize)
        requires
            old(self).x < width,
            old(self).y < height,
        ensures
            final(self).x as int == (old(self).x as int + forward_delta_spec(
                old(self).orientation,
            ).0) % width as int,
            final(self).y as int == (old(self).y as int + forward_delta_spec(
                old(self).orientation,
            ).1) % height as int,
            final(self).x < width,
            final(self).y < height,
            final(self).id == old(self).id,
            final(self).team_name == old(self).team_name,
            final(self).orientation == old(self).orientation,
            final(self).level == old(self).level,
            final(self).inventory == old(self).inventory,
            final(self).frozen_by == old(self).frozen_by,
            final(self).next_food_tick == old(self).next_food_tick,
    {
        let (dx, dy) = self.orientation.forward_delta();
        self.x = step_coordinate(self.x, dx, width);
        self.y = step_coordinate(self.y, dy, height);
    }

    /// A quarter turn clockwise.
    pub fn turn_right(&mut self)
        ensures
            *final(self) == (Player { orientation: turned_right(old(self).orientation), ..*old(self) }),
    {
        self.orientation = self.orientation.turn_right();
    }

    /// A quarter turn counterclockwise.
    pub fn turn_left(&mut self)
        ensures
            *final(self) == (Player { orientation: turned_left(old(self).orientation), ..*old(self) }),
    {
        self.orientation = self.orientation.turn_left();
    }
}

/// An egg from which a player of its team can hatch.
pub struct Egg {
    pub id: usize,
    /// The player who laid it; none for the eggs placed at start.
    pub parent_id: Option<usize>,
    pub team_name: String,
    pub x: usize,
    pub y: usize,
}

impl Egg {
    /// An egg of `team_name` at (`x`, `y`).
    pub fn new(id: usize, parent_id: Option<usize>, team_name: String, x: usize, y: usize) -> (egg:
        Egg)
        ensures
            egg.id == id,
            egg.parent_id == parent_id,
            egg.team_name@ == team_name@,
            egg.x == x,
            egg.y == y,
    {
        Egg { id, parent_id, team_name, x, y }
    }
}

/// A team, by name.
pub struct Team {
    pub name: String,
}

impl Team {
    /// The team called `name`.
    pub fn new(name: String) -> (team: Team)
        ensures
            team.name@ == name@,
    {
        Team { name }
    }
}

} // verus!

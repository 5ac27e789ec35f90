//! From which side a sound reaches a player on the toroidal map.
use vstd::prelude::*;

use crate::entities::{sound_index_spec, turned_left, Orientation};

verus! {

/// The signed step from `from` to `to` along a wrapping dimension of `size`
/// cells, taking the shorter way round.
pub open spec fn shortest_delta_spec(from: int, to: int, size: int) -> int {
    let delta = to - from;
    let half = size / 2;
    if delta > half {
        delta - size
    } else if delta < -half {
        delta + size
    } else {
        delta
    }
}

/// Absolute value.
pub open spec fn abs(value: int) -> int {
    if value < 0 {
        -value
    } else {
        value
    }
}

/// The vector (`main`, `side`) lies strictly within an eighth of a turn
/// centred on the `main` axis, that is `|side| < tan(22.5°) * |main|`,
/// written without the irrational tangent as
/// `(|side| + |main|)² < 2 * main²`.
pub open spec fn near_axis(main: int, side: int) -> bool {
    main != 0 && (abs(side) + abs(main)) * (abs(side) + abs(main)) < 2 * (main * main)
}

/// The eighth of a turn, counterclockwise from north, nearest to the
/// direction of the vector whose northward part is `north` and whose
/// westward part is `west`; the vector is not null.
pub open spec fn sector(north: int, west: int) -> nat {
    if near_axis(north, west) {
        if north > 0 {
            0
        } else {
            4
        }
    } else if near_axis(west, north) {
        if west > 0 {
            2
        } else {
            6
        }
    } else if north > 0 && west > 0 {
        1
    } else if north < 0 && west > 0 {
        3
    } else if north < 0 && west < 0 {
        5
    } else {
        7
    }
}

/// The tile number, one to eight counterclockwise from the front, from
/// which a sound sent at `sender` reaches a player at `receiver` facing
/// `orientation`; zero when both share a tile.
pub open spec fn broadcast_direction_spec(
    receiver: (int, int),
    orientation: Orientation,
    sender: (int, int),
    width: int,
    height: int,
) -> nat {
    let dx = shortest_delta_spec(receiver.0, sender.0, width);
    let dy = shortest_delta_spec(receiver.1, sender.1, height);
    if dx == 0 && dy == 0 {
        0
    } else {
        ((sector(-dy, -dx) + 8 - sound_index_spec(orientation)) % 8 + 1) as nat
    }
}

/// The signed step from `from` to `to` along a wrapping dimension of `size`
/// cells, taking the shorter way round.
pub fn shortest_delta(from: usize, to: usize, size: usize) -> (delta: isize)
    requires
        from < size,
        to < size,
        size <= isize::MAX,
    ensures
        delta == shortest_delta_spec(from as int, to as int, size as int),
        -(size as int) / 2 <= delta <= size as int / 2,
{
    let mut delta = to as isize - from as isize;
    let half = size as isize / 2;
    if delta > half {
        delta -= size as isize;
    } else if delta < -half {
        delta += size as isize;
    }
    delta
}

fn magnitude(value: isize) -> (m: u128)
    ensures
        m == abs(value as int),
{
    if value < 0 {
        (-(value as i128)) as u128
    } else {
        value as u128
    }
}

fn is_near_axis(main: isize, side: isize) -> (near: bool)
    requires
        -(isize::MAX as int) / 2 <= main <= isize::MAX as int / 2,
        -(isize::MAX as int) / 2 <= side <= isize::MAX as int / 2,
    ensures
        near == near_axis(main as int, side as int),
{
    if main == 0 {
        return false;
    }
    let m = magnitude(main);
    let s = magnitude(side);
    assert(m + s <= 0x8000_0000_0000_0000);
    let sum = m + s;
    assert(sum * sum <= 0x8000_0000_0000_0000 * 0x8000_0000_0000_0000) by (nonlinear_arith)
        requires
            sum <= 0x8000_0000_0000_0000,
    ;
    assert(m * m <= 0x8000_0000_0000_0000 * 0x8000_0000_0000_0000) by (nonlinear_arith)
        requires
            m <= 0x8000_0000_0000_0000,
    ;
    assert(m * m == main * main) by (nonlinear_arith)
        requires
            m == abs(main as int),
    ;
    sum * sum < 2 * (m * m)
}

/// The tile number, one to eight counterclockwise from the front, from
/// which a sound sent at `sender` reaches a player at `receiver` facing
/// `receiver_orientation`, on a map of `width` by `height`; zero when both
/// share a tile. The sound travels the shortest way round the map.
pub fn broadcast_direction(
    receiver: (usize, usize),
    receiver_orientation: Orientation,
    sender: (usize, usize),
    width: usize,
    height: usize,
) -> (direction: usize)
    requires
        receiver.0 < width,
        sender.0 < width,
        receiver.1 < height,
        sender.1 < height,
        width <= isize::MAX,
        height <= isize::MAX,
    ensures
        direction == broadcast_direction_spec(
            (receiver.0 as int, receiver.1 as int),
            receiver_orientation,
            (sender.0 as int, sender.1 as int),
            width as int,
            height as int,
        ),
        direction <= 8,
{
    let dx = shortest_delta(receiver.0, sender.0, width);
    let dy = shortest_delta(receiver.1, sender.1, height);
    if dx == 0 && dy == 0 {
        return 0;
    }
    let north = -dy;
    let west = -dx;
    let global_index: usize = if is_near_axis(north, west) {
        if north > 0 {
            0
        } else {
            4
        }
    } else if is_near_axis(west, north) {
        if west > 0 {
            2
        } else {
            6
        }
    } else if north > 0 && west > 0 {
        1
    } else if north < 0 && west > 0 {
        3
    } else if north < 0 && west < 0 {
        5
    } else {
        7
    };
    let relative_index = (global_index + 8 - receiver_orientation.global_sound_index()) % 8;
    relative_index + 1
}

/// A sound reaches a player from its own tile, direction zero, exactly
/// when the sender stands on that tile; from any other tile it comes from
/// one of the eight tiles around.
pub proof fn lemma_direction_zero_iff_same_tile(
    receiver: (int, int),
    orientation: Orientation,
    sender: (int, int),
    width: int,
    height: int,
)
    requires
        0 <= receiver.0 < width,
        0 <= sender.0 < width,
        0 <= receiver.1 < height,
        0 <= sender.1 < height,
    ensures
        (broadcast_direction_spec(receiver, orientation, sender, width, height) == 0) <==> receiver == sender,
        receiver != sender ==> 1 <= broadcast_direction_spec(receiver, orientation, sender, width, height) <= 8,
{
}

/// A quarter turn to the left moves the direction a sound comes from two
/// tiles clockwise, that is two steps back in the counterclockwise
/// numbering.
pub proof fn lemma_direction_after_left_turn(
    receiver: (int, int),
    orientation: Orientation,
    sender: (int, int),
    width: int,
    height: int,
)
    requires
        receiver != sender,
        0 <= receiver.0 < width,
        0 <= sender.0 < width,
        0 <= receiver.1 < height,
        0 <= sender.1 < height,
    ensures
        broadcast_direction_spec(receiver, turned_left(orientation), sender, width, height) == (
        broadcast_direction_spec(receiver, orientation, sender, width, height) + 5) % 8 + 1,
{
}

/// Where a sound comes from does not depend on the way the listener
/// faces: the direction heard, turned back by the listener's orientation,
/// is the same for every orientation.
pub proof fn lemma_direction_turns_with_listener(
    receiver: (int, int),
    first: Orientation,
    second: Orientation,
    sender: (int, int),
    width: int,
    height: int,
)
    requires
        receiver != sender,
        0 <= receiver.0 < width,
        0 <= sender.0 < width,
        0 <= receiver.1 < height,
        0 <= sender.1 < height,
    ensures
        (broadcast_direction_spec(receiver, first, sender, width, height) - 1 + sound_index_spec(first)) % 8 == (
        broadcast_direction_spec(receiver, second, sender, width, height) - 1 + sound_index_spec(second)) % 8,
{
}

/// One step along a wrapping dimension of `size` cells, forward or back,
/// is the shortest way round it as soon as there are three cells.
proof fn lemma_one_step_is_shortest(from: int, step: int, size: int)
    requires
        3 <= size,
        0 <= from < size,
        step == 1 || step == -1 || step == 0,
    ensures
        shortest_delta_spec(from, (from + step) % size, size) == step,
{
    if from + step < 0 {
        vstd::arithmetic::div_mod::lemma_fundamental_div_mod_converse(from + step, size, -1, size - 1);
    } else if from + step >= size {
        vstd::arithmetic::div_mod::lemma_fundamental_div_mod_converse(from + step, size, 1, 0);
    } else {
        vstd::arithmetic::div_mod::lemma_small_mod((from + step) as nat, size as nat);
    }
}

/// A sound sent from the tile just in front of a player reaches it from
/// tile 1, and one sent from the tile just behind it from tile 5, whichever
/// way it faces and wherever it stands on a map at least three tiles wide
/// and high.
pub proof fn lemma_sound_from_front_and_back(receiver: (int, int), orientation: Orientation, width: int, height: int)
    requires
        3 <= width,
        3 <= height,
        0 <= receiver.0 < width,
        0 <= receiver.1 < height,
    ensures
        ({
            let (fx, fy) = match orientation {
                Orientation::North => (0int, -1int),
                Orientation::East => (1int, 0int),
                Orientation::South => (0int, 1int),
                Orientation::West => (-1int, 0int),
            };
            &&& broadcast_direction_spec(
                receiver,
                orientation,
                ((receiver.0 + fx) % width, (receiver.1 + fy) % height),
                width,
                height,
            ) == 1
            &&& broadcast_direction_spec(
                receiver,
                orientation,
                ((receiver.0 - fx) % width, (receiver.1 - fy) % height),
                width,
                height,
            ) == 5
        }),
{
    let (fx, fy) = match orientation {
        Orientation::North => (0int, -1int),
        Orientation::East => (1int, 0int),
        Orientation::South => (0int, 1int),
        Orientation::West => (-1int, 0int),
    };
    lemma_one_step_is_shortest(receiver.0, fx, width);
    lemma_one_step_is_shortest(receiver.1, fy, height);
    lemma_one_step_is_shortest(receiver.0, -fx, width);
    lemma_one_step_is_shortest(receiver.1, -fy, height);
    assert(receiver.0 - fx == receiver.0 + (-fx));
    assert(receiver.1 - fy == receiver.1 + (-fy));
    assert(near_axis(1, 0) && near_axis(-1, 0) && !near_axis(0, 1) && !near_axis(0, -1));
}

} // verus!

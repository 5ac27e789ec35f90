use zappy::sound::broadcast_direction;
use zappy::entities::Orientation;

#[test]
fn broadcast_uses_receiver_orientation() {
    assert_eq!(
        broadcast_direction((5, 5), Orientation::North, (5, 4), 10, 10),
        1
    );
    assert_eq!(
        broadcast_direction((5, 5), Orientation::East, (5, 4), 10, 10),
        3
    );
    assert_eq!(
        broadcast_direction((5, 5), Orientation::North, (5, 5), 10, 10),
        0
    );
}

fn float_direction(
    receiver: (usize, usize),
    orientation_index: usize,
    sender: (usize, usize),
    width: usize,
    height: usize,
) -> usize {
    fn delta(from: usize, to: usize, size: usize) -> isize {
        let mut delta = to as isize - from as isize;
        let half = size as isize / 2;
        if delta > half {
            delta -= size as isize;
        } else if delta < -half {
            delta += size as isize;
        }
        delta
    }
    let dx = delta(receiver.0, sender.0, width);
    let dy = delta(receiver.1, sender.1, height);
    if dx == 0 && dy == 0 {
        return 0;
    }
    let mut angle = (-(dx as f64)).atan2(-(dy as f64));
    if angle < 0.0 {
        angle += std::f64::consts::TAU;
    }
    let global_index = ((angle / std::f64::consts::FRAC_PI_4).round() as usize) % 8;
    (global_index + 8 - orientation_index) % 8 + 1
}

#[test]
fn integer_sectors_match_the_angle_rounding() {
    let orientations = [
        (Orientation::North, 0),
        (Orientation::West, 2),
        (Orientation::South, 4),
        (Orientation::East, 6),
    ];
    for width in [1usize, 2, 3, 7, 10, 31] {
        for height in [1usize, 2, 5, 10, 17] {
            for rx in 0..width {
                for ry in 0..height {
                    for (sx, sy) in [(0usize, 0usize), (width / 2, height / 3), (width - 1, height - 1)] {
                        for (orientation, index) in orientations {
                            assert_eq!(
                                broadcast_direction((rx, ry), orientation, (sx, sy), width, height),
                                float_direction((rx, ry), index, (sx, sy), width, height),
                            );
                        }
                    }
                }
            }
        }
    }
}

#[test]
fn sound_comes_from_behind_and_the_sides() {
    // Sender south of a north-facing receiver: from behind.
    assert_eq!(broadcast_direction((5, 5), Orientation::North, (5, 6), 10, 10), 5);
    // Sender east of a north-facing receiver: from the right.
    assert_eq!(broadcast_direction((5, 5), Orientation::North, (6, 5), 10, 10), 7);
    // Sender north-west: front-left.
    assert_eq!(broadcast_direction((5, 5), Orientation::North, (4, 4), 10, 10), 2);
    // Wrapping: the sender at the other edge is one step to the west.
    assert_eq!(broadcast_direction((0, 5), Orientation::North, (9, 5), 10, 10), 3);
}

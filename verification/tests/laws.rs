use zappy::actions::{move_forward, turn_left, turn_right};
use zappy::sound::broadcast_direction;
use zappy::entities::{Orientation, Player};
use zappy::gui::parse_hash_id;
use zappy::gui_messages::pnw;
use zappy::objects::{set_object, take_object};
use zappy::timing::timeout_to_poll_milliseconds;
use zappy::world::{GameMap, Resource};

fn player_at(x: usize, y: usize, orientation: Orientation) -> Player {
    Player::new(1, "team".to_string(), x, y, orientation, 0)
}

#[test]
fn turning_left_undoes_turning_right() {
    for orientation in [Orientation::North, Orientation::East, Orientation::South, Orientation::West] {
        let mut player = player_at(0, 0, orientation);
        turn_right(&mut player);
        assert_ne!(player.orientation, orientation);
        turn_left(&mut player);
        assert_eq!(player.orientation, orientation);
        for _ in 0..4 {
            turn_right(&mut player);
        }
        assert_eq!(player.orientation, orientation);
    }
}

#[test]
fn a_step_and_a_step_back_return_home() {
    for (x, y) in [(0, 0), (4, 2), (4, 0), (0, 2)] {
        for orientation in [Orientation::North, Orientation::East, Orientation::South, Orientation::West] {
            let mut player = player_at(x, y, orientation);
            move_forward(&mut player, 5, 3);
            assert!(player.x < 5 && player.y < 3);
            turn_right(&mut player);
            turn_right(&mut player);
            move_forward(&mut player, 5, 3);
            assert_eq!((player.x, player.y), (x, y));
        }
    }
}

#[test]
fn the_map_wraps_around() {
    let mut player = player_at(0, 0, Orientation::West);
    move_forward(&mut player, 5, 3);
    assert_eq!((player.x, player.y), (4, 0));
    let mut player = player_at(1, 0, Orientation::North);
    move_forward(&mut player, 5, 3);
    assert_eq!((player.x, player.y), (1, 2));
}

#[test]
fn taking_then_dropping_restores_everything() {
    let mut map = GameMap::new(3, 3);
    let mut tile = *map.get_tile(1, 1).unwrap();
    tile.add(Resource::Phiras);
    map.set_tile(1, 1, tile);
    let mut player = player_at(1, 1, Orientation::North);
    assert!(take_object(&mut player, &mut map, Resource::Phiras));
    assert_eq!(player.inventory.phiras, 1);
    assert_eq!(map.get_tile(1, 1).unwrap().phiras, 0);
    assert!(!take_object(&mut player, &mut map, Resource::Phiras));
    assert!(set_object(&mut player, &mut map, Resource::Phiras));
    assert_eq!(player.inventory.phiras, 0);
    assert_eq!(*map.get_tile(1, 1).unwrap(), tile);
    assert!(!set_object(&mut player, &mut map, Resource::Phiras));
    let mut astray = player_at(5, 1, Orientation::North);
    assert!(!take_object(&mut astray, &mut map, Resource::Food));
    assert!(!set_object(&mut astray, &mut map, Resource::Food));
    assert_eq!(astray.inventory.food, 10);
}

#[test]
fn sound_comes_from_the_own_tile_only_when_shared() {
    for x in 0..4 {
        for y in 0..3 {
            let d = broadcast_direction((1, 1), Orientation::North, (x, y), 4, 3);
            assert_eq!(d == 0, (x, y) == (1, 1));
            assert!(d <= 8);
            if d != 0 {
                let turned = broadcast_direction((1, 1), Orientation::West, (x, y), 4, 3);
                assert_eq!(turned, (d + 5) % 8 + 1);
            }
        }
    }
}

#[test]
fn written_ids_read_back() {
    assert_eq!(parse_hash_id("#0"), Some(0));
    assert_eq!(parse_hash_id("#42"), Some(42));
    assert_eq!(parse_hash_id("42"), Some(42));
    assert_eq!(parse_hash_id("#"), None);
    assert_eq!(parse_hash_id("#x"), None);
    let player = Player::new(1234, "t".to_string(), 0, 0, Orientation::East, 0);
    let line = pnw(&player);
    let id = line.split_whitespace().nth(1).unwrap();
    assert_eq!(parse_hash_id(id), Some(1234));
}

#[test]
fn the_poll_wait_covers_the_timeout() {
    for nanos in [1u64, 999_999, 1_000_000, 1_000_001, 123_456_789] {
        let millis = timeout_to_poll_milliseconds(Some(nanos)) as u64;
        assert!(millis * 1_000_000 >= nanos);
        assert!(millis * 1_000_000 < nanos + 1_000_000);
    }
}

#[test]
fn where_a_sound_comes_from_turns_with_the_listener() {
    let all = [Orientation::North, Orientation::East, Orientation::South, Orientation::West];
    for x in 0..5 {
        for y in 0..4 {
            if (x, y) == (2, 1) {
                continue;
            }
            let turned_back: Vec<usize> = all
                .iter()
                .map(|o| (broadcast_direction((2, 1), *o, (x, y), 5, 4) - 1 + o.global_sound_index()) % 8)
                .collect();
            assert!(turned_back.iter().all(|d| *d == turned_back[0]));
        }
    }
}

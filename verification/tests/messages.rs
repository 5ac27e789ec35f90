use zappy::entities::{Egg, Orientation, Player};
use zappy::gui_messages::{
    bct, ebo, edi, enw, msz, pbc, pdi, pdr, pex, pfk, pgt, pic, pie, pin, plv, pnw, ppo, seg, sgt, tna,
};
use zappy::world::{GameMap, Resource};

fn sample_player() -> Player {
    let mut player = Player::new(3, "team1".to_string(), 4, 5, Orientation::East, 0);
    player.level = 2;
    player
}

#[test]
fn formats_map_and_time_messages() {
    assert_eq!(msz(10, 20), "msz 10 20\n");
    assert_eq!(sgt(100), "sgt 100\n");
    assert_eq!(tna("team1"), "tna team1\n");
    assert_eq!(seg("team1"), "seg team1\n");
}

#[test]
fn formats_tile_content() {
    let mut map = GameMap::new(3, 2);
    let mut tile = *map.get_tile(2, 1).unwrap();
    tile.add(Resource::Food);
    tile.add(Resource::Thystame);
    tile.add(Resource::Thystame);
    map.set_tile(2, 1, tile);
    assert_eq!(bct(&map, 2, 1), "bct 2 1 1 0 0 0 0 0 2\n");
    assert_eq!(bct(&map, 0, 0), "bct 0 0 0 0 0 0 0 0 0\n");
    assert_eq!(bct(&map, 3, 0), "");
}

#[test]
fn formats_player_messages() {
    let player = sample_player();
    assert_eq!(pnw(&player), "pnw #3 4 5 2 2 team1\n");
    assert_eq!(ppo(&player), "ppo #3 4 5 2\n");
    assert_eq!(plv(&player), "plv #3 2\n");
    assert_eq!(pin(&player), "pin #3 4 5 10 0 0 0 0 0 0\n");
    assert_eq!(pex(3), "pex #3\n");
    assert_eq!(pbc(3, "hello there"), "pbc #3 hello there\n");
    assert_eq!(pfk(3), "pfk #3\n");
    assert_eq!(pdi(3), "pdi #3\n");
    assert_eq!(pdr(3, Resource::Sibur), "pdr #3 3\n");
    assert_eq!(pgt(3, Resource::Food), "pgt #3 0\n");
}

#[test]
fn formats_incantation_messages() {
    assert_eq!(pic(1, 2, 3, &[7, 8, 12]), "pic 1 2 3 #7 #8 #12\n");
    assert_eq!(pic(0, 0, 1, &[]), "pic 0 0 1\n");
    assert_eq!(pie(1, 2, true), "pie 1 2 1\n");
    assert_eq!(pie(1, 2, false), "pie 1 2 0\n");
}

#[test]
fn formats_egg_messages() {
    let laid = Egg::new(9, Some(3), "team1".to_string(), 1, 2);
    let placed = Egg::new(10, None, "team1".to_string(), 0, 7);
    assert_eq!(enw(&laid), "enw #9 #3 1 2\n");
    assert_eq!(enw(&placed), "enw #10 #-1 0 7\n");
    assert_eq!(ebo(9), "ebo #9\n");
    assert_eq!(edi(10), "edi #10\n");
}

#[test]
fn formats_large_numbers() {
    assert_eq!(msz(1234567890, 0), "msz 1234567890 0\n");
    assert_eq!(sgt(usize::MAX), format!("sgt {}\n", usize::MAX));
}

use zappy::client::{ClientId, ClientState};
use zappy::config::Config;
use zappy::game::GameState;
use zappy::network::{
    collect_closed_clients, event_steps, poll_event, register_client, remove_client, remove_clients, EventStep, PollEvent,
    PollTarget,
};
use zappy::protocol::handle_complete_client_lines;

const MILLI: u64 = 1_000_000;

fn config() -> Config {
    Config {
        port: 4242,
        width: 10,
        height: 10,
        teams: vec!["team1".to_string(), "team2".to_string()],
        clients_nb: 3,
        freq: 100,
    }
}

fn output_of(game: &GameState, id: ClientId) -> String {
    let client = &game.clients.iter().find(|(c, _)| *c == id).unwrap().1;
    String::from_utf8(client.output[client.output_offset..].to_vec()).unwrap()
}

fn clear_output(game: &mut GameState, id: ClientId) {
    let client = &mut game.clients.iter_mut().find(|(c, _)| *c == id).unwrap().1;
    client.output.clear();
    client.output_offset = 0;
}

fn say(game: &mut GameState, id: ClientId, text: &str, now: u64) {
    let client = &mut game.clients.iter_mut().find(|(c, _)| *c == id).unwrap().1;
    client.receive(text.as_bytes());
    handle_complete_client_lines(game, id, now);
}

fn joined_ai(game: &mut GameState) -> ClientId {
    let id = register_client(game).unwrap();
    say(game, id, "team1\n", 0);
    clear_output(game, id);
    id
}

#[test]
fn a_new_client_is_welcomed() {
    let mut game = GameState::new(&config(), 0);
    let id = register_client(&mut game).unwrap();
    assert_eq!(id, ClientId(1));
    assert_eq!(output_of(&game, id), "WELCOME\n");
    let second = register_client(&mut game).unwrap();
    assert_eq!(second, ClientId(2));
    assert_eq!(game.clients.len(), 2);
}

#[test]
fn the_game_starts_with_eggs_for_every_team() {
    let game = GameState::new(&config(), 0);
    assert_eq!(game.eggs.len(), 6);
    assert_eq!(game.teams.len(), 2);
    assert_eq!(game.teams[0].name, "team2");
    assert_eq!(game.teams[1].name, "team1");
    assert_eq!(game.next_egg_id, 7);
    assert_eq!(game.next_resource_spawn, 200 * MILLI);
    assert!(game.players.is_empty());
    for egg in &game.eggs {
        assert!(egg.x < 10 && egg.y < 10);
    }
}

#[test]
fn an_ai_joins_its_team() {
    let mut game = GameState::new(&config(), 0);
    let id = register_client(&mut game).unwrap();
    clear_output(&mut game, id);
    say(&mut game, id, "team1\n", 0);
    assert_eq!(output_of(&game, id), "2\n10 10\n");
    assert_eq!(game.players.len(), 1);
    assert_eq!(game.players[0].team_name, "team1");
    assert_eq!(game.players[0].inventory.food, 10);
    assert_eq!(game.players[0].level, 1);
    assert_eq!(game.eggs.len(), 5);
}

#[test]
fn an_unknown_team_is_refused() {
    let mut game = GameState::new(&config(), 0);
    let id = register_client(&mut game).unwrap();
    clear_output(&mut game, id);
    say(&mut game, id, "nobody\n", 0);
    assert_eq!(output_of(&game, id), "ko\n");
    assert!(game.players.is_empty());
    say(&mut game, id, "\n", 0);
    assert_eq!(output_of(&game, id), "ko\nko\n");
}

#[test]
fn a_graphical_client_gets_the_world() {
    let mut game = GameState::new(&config(), 0);
    let id = register_client(&mut game).unwrap();
    clear_output(&mut game, id);
    say(&mut game, id, "GRAPHIC\r\n", 0);
    let text = output_of(&game, id);
    assert!(text.starts_with("msz 10 10\nsgt 100\nbct 0 0 "));
    assert!(text.contains("tna team1\n"));
    assert!(text.contains("tna team2\n"));
    assert_eq!(text.matches("enw #").count(), 6);
    assert_eq!(game.clients[0].1.state, ClientState::Gui);
    clear_output(&mut game, id);
    say(&mut game, id, "sgt\n", 0);
    assert_eq!(output_of(&game, id), "sgt 100\n");
    clear_output(&mut game, id);
    say(&mut game, id, "bct 10 0\nfoo\n", 0);
    assert_eq!(output_of(&game, id), "sbp\nsuc\n");
}

#[test]
fn inventory_answers_after_one_time_unit() {
    let mut game = GameState::new(&config(), 0);
    let id = joined_ai(&mut game);
    say(&mut game, id, "Inventory\n", 0);
    game.process_timers(0);
    assert_eq!(output_of(&game, id), "");
    assert_eq!(game.next_timeout(0), Some(10 * MILLI));
    game.process_timers(10 * MILLI - 1);
    assert_eq!(output_of(&game, id), "");
    game.process_timers(10 * MILLI);
    assert_eq!(
        output_of(&game, id),
        "[food 10, linemate 0, deraumere 0, sibur 0, mendiane 0, phiras 0, thystame 0]\n"
    );
}

#[test]
fn commands_run_one_after_another() {
    let mut game = GameState::new(&config(), 0);
    let id = joined_ai(&mut game);
    let (x, y) = (game.players[0].x, game.players[0].y);
    say(&mut game, id, "Right\nRight\nForward\n", 0);
    game.process_timers(0);
    game.process_timers(70 * MILLI);
    assert_eq!(output_of(&game, id), "ok\n");
    game.process_timers(140 * MILLI);
    assert_eq!(output_of(&game, id), "ok\nok\n");
    game.process_timers(210 * MILLI);
    assert_eq!(output_of(&game, id), "ok\nok\nok\n");
    let player = &game.players[0];
    let moved = (player.x, player.y);
    assert!(moved != (x, y));
    assert!(moved.0 == x || moved.1 == y);
}

#[test]
fn unknown_commands_are_answered_ko() {
    let mut game = GameState::new(&config(), 0);
    let id = joined_ai(&mut game);
    say(&mut game, id, "Dance\nTake nothing\n", 0);
    game.process_timers(0);
    game.process_timers(0);
    game.process_timers(0);
    assert_eq!(output_of(&game, id), "ko\nko\n");
}

#[test]
fn at_most_ten_commands_wait() {
    let mut game = GameState::new(&config(), 0);
    let id = joined_ai(&mut game);
    for _ in 0..12 {
        say(&mut game, id, "Connect_nbr\n", 0);
    }
    assert_eq!(game.clients[0].1.queue.len(), 10);
}

#[test]
fn connect_nbr_counts_the_free_slots() {
    let mut game = GameState::new(&config(), 0);
    let id = joined_ai(&mut game);
    say(&mut game, id, "Connect_nbr\n", 0);
    game.process_timers(0);
    game.process_timers(0);
    assert_eq!(output_of(&game, id), "2\n");
}

#[test]
fn a_player_starves_without_food() {
    let mut game = GameState::new(&config(), 0);
    let id = joined_ai(&mut game);
    game.players[0].inventory.food = 0;
    let due = game.players[0].next_food_tick;
    assert_eq!(due, 1260 * MILLI);
    game.process_timers(due);
    assert_eq!(output_of(&game, id), "dead\n");
    assert!(game.players.is_empty());
    assert!(game.clients[0].1.close_after_flush);
}

#[test]
fn a_player_eats_on_time() {
    let mut game = GameState::new(&config(), 0);
    let _id = joined_ai(&mut game);
    game.process_timers(1260 * MILLI);
    assert_eq!(game.players[0].inventory.food, 9);
    assert_eq!(game.players[0].next_food_tick, 2520 * MILLI);
}

#[test]
fn the_map_is_refilled_on_time() {
    let mut game = GameState::new(&config(), 0);
    let before = game.map.units_up_to(zappy::world::Resource::Food, usize::MAX);
    assert_eq!(before, 50);
    game.process_timers(200 * MILLI);
    assert_eq!(game.next_resource_spawn, 400 * MILLI);
    assert_eq!(game.map.units_up_to(zappy::world::Resource::Food, usize::MAX), 50);
}

#[test]
fn a_client_that_leaves_takes_its_player() {
    let mut game = GameState::new(&config(), 0);
    let gui = register_client(&mut game).unwrap();
    say(&mut game, gui, "GRAPHIC\n", 0);
    let ai = joined_ai(&mut game);
    clear_output(&mut game, gui);
    let player_id = game.players[0].id;
    remove_client(&mut game, ai);
    assert!(game.players.is_empty());
    assert_eq!(game.clients.len(), 1);
    assert_eq!(output_of(&game, gui), format!("pdi #{}\n", player_id));
}

#[test]
fn joining_and_leaving_leaves_the_game_as_it_was() {
    let mut game = GameState::new(&config(), 0);
    let first = register_client(&mut game).unwrap();
    let second = register_client(&mut game).unwrap();
    remove_client(&mut game, second);
    assert_eq!(game.clients.len(), 1);
    assert_eq!(game.clients[0].0, first);
    remove_client(&mut game, ClientId(99));
    assert_eq!(game.clients.len(), 1);
}

#[test]
fn closed_clients_are_collected_once_flushed() {
    let mut game = GameState::new(&config(), 0);
    let a = register_client(&mut game).unwrap();
    let b = register_client(&mut game).unwrap();
    game.clients[0].1.close_after_flush = true;
    game.clients[1].1.close_after_flush = true;
    clear_output(&mut game, b);
    let mut closing = vec![ClientId(7)];
    collect_closed_clients(&game, &mut closing);
    assert_eq!(closing, vec![ClientId(7), b]);
    let pending = game.clients[0].1.output.len();
    game.clients[0].1.advance_output(pending);
    let mut closing = Vec::new();
    collect_closed_clients(&game, &mut closing);
    assert_eq!(closing, vec![a, b]);
    remove_clients(&mut game, vec![a, b, a]);
    assert!(game.clients.is_empty());
}

#[test]
fn poll_flags_become_events() {
    let target = PollTarget::Client(ClientId(3));
    assert_eq!(poll_event(target, 0, 1, 4, 56), None);
    assert_eq!(
        poll_event(target, 1, 1, 4, 56),
        Some(PollEvent { target, readable: true, writable: false, closed: false })
    );
    assert_eq!(
        poll_event(PollTarget::Listener, 4 | 16, 1, 4, 56),
        Some(PollEvent { target: PollTarget::Listener, readable: false, writable: true, closed: true })
    );
}

#[test]
fn the_next_timeout_is_the_refill_when_nothing_else_waits() {
    let game = GameState::new(&config(), 0);
    assert_eq!(game.next_timeout(0), Some(200 * MILLI));
    assert_eq!(game.next_timeout(500 * MILLI), Some(0));
}

#[test]
fn a_broadcast_is_heard_by_the_others() {
    let mut game = GameState::new(&config(), 0);
    let gui = register_client(&mut game).unwrap();
    say(&mut game, gui, "GRAPHIC\n", 0);
    let speaker = joined_ai(&mut game);
    let listener = joined_ai(&mut game);
    clear_output(&mut game, gui);
    game.players[1].x = game.players[0].x;
    game.players[1].y = game.players[0].y;
    say(&mut game, speaker, "Broadcast hello world\n", 0);
    game.process_timers(0);
    game.process_timers(70 * MILLI);
    assert_eq!(output_of(&game, speaker), "ok\n");
    assert_eq!(output_of(&game, listener), "message 0, hello world\n");
    let speaker_id = game.players[0].id;
    assert_eq!(output_of(&game, gui), format!("pbc #{} hello world\n", speaker_id));
}

#[test]
fn a_team_with_six_players_at_the_top_wins_once() {
    let mut settings = config();
    settings.clients_nb = 6;
    let mut game = GameState::new(&settings, 0);
    let gui = register_client(&mut game).unwrap();
    say(&mut game, gui, "GRAPHIC\n", 0);
    for _ in 0..6 {
        joined_ai(&mut game);
    }
    clear_output(&mut game, gui);
    game.check_victory();
    assert_eq!(game.winner, None);
    for player in game.players.iter_mut() {
        player.level = 8;
    }
    game.check_victory();
    assert_eq!(game.winner, Some("team1".to_string()));
    assert_eq!(output_of(&game, gui), "seg team1\n");
    game.check_victory();
    assert_eq!(output_of(&game, gui), "seg team1\n");
}

#[test]
fn input_is_cut_into_lines_without_loss() {
    let mut client = zappy::client::Client::new();
    client.receive(b"ab\ncd\r\n");
    client.receive(b"\nef");
    let lines = client.extract_complete_lines();
    assert_eq!(lines, vec!["ab".to_string(), "cd".to_string(), "".to_string()]);
    assert_eq!(client.input, b"ef".to_vec());
    client.receive(b"\xffg\n");
    assert_eq!(client.extract_complete_lines(), vec!["ef\u{fffd}g".to_string()]);
    assert!(client.input.is_empty());
}

#[test]
fn a_new_frequency_is_reported() {
    let mut game = GameState::new(&config(), 0);
    let gui = register_client(&mut game).unwrap();
    say(&mut game, gui, "GRAPHIC\n", 0);
    clear_output(&mut game, gui);
    say(&mut game, gui, "sst 50\n", 0);
    assert_eq!(output_of(&game, gui), "sgt 50\n");
    assert_eq!(game.frequency, 50);
    clear_output(&mut game, gui);
    say(&mut game, gui, "sgt\nsst 0\nsst 10001\n", 0);
    assert_eq!(output_of(&game, gui), "sgt 50\nsbp\nsbp\n");
    assert_eq!(game.frequency, 50);
}

#[test]
fn laying_an_egg_opens_a_slot() {
    let mut game = GameState::new(&config(), 0);
    let gui = register_client(&mut game).unwrap();
    say(&mut game, gui, "GRAPHIC\n", 0);
    let id = joined_ai(&mut game);
    clear_output(&mut game, gui);
    let player_id = game.players[0].id;
    say(&mut game, id, "Fork\nConnect_nbr\n", 0);
    game.process_timers(0);
    assert_eq!(output_of(&game, gui), format!("pfk #{}\n", player_id));
    game.process_timers(420 * MILLI);
    game.process_timers(420 * MILLI);
    assert_eq!(output_of(&game, id), "ok\n3\n");
    assert_eq!(game.eggs.len(), 6);
    assert!(output_of(&game, gui).contains(&format!("enw #7 #{} ", player_id)));
}

#[test]
fn events_become_steps_in_order() {
    let id = ClientId(4);
    let all = PollEvent { target: PollTarget::Client(id), readable: true, writable: true, closed: true };
    assert_eq!(event_steps(all), vec![EventStep::Read(id), EventStep::Flush(id), EventStep::Drop(id)]);
    let quiet = PollEvent { target: PollTarget::Client(id), readable: false, writable: false, closed: false };
    assert!(event_steps(quiet).is_empty());
    let listener = PollEvent { target: PollTarget::Listener, readable: true, writable: true, closed: true };
    assert_eq!(event_steps(listener), vec![EventStep::Accept]);
}

#[test]
fn clients_with_output_are_watched_for_writing() {
    let mut game = GameState::new(&config(), 0);
    let a = register_client(&mut game).unwrap();
    let b = register_client(&mut game).unwrap();
    clear_output(&mut game, b);
    assert_eq!(zappy::network::poll_interest(&game), vec![(a, true), (b, false)]);
}

#[test]
fn the_refill_is_shown_tile_by_tile() {
    let mut game = GameState::new(&config(), 0);
    let gui = register_client(&mut game).unwrap();
    say(&mut game, gui, "GRAPHIC\n", 0);
    for x in 0..10 {
        for y in 0..10 {
            let mut tile = *game.map.get_tile(x, y).unwrap();
            tile.food = 0;
            game.map.set_tile(x, y, tile);
        }
    }
    clear_output(&mut game, gui);
    game.process_timers(200 * MILLI);
    assert_eq!(game.map.units_up_to(zappy::world::Resource::Food, usize::MAX), 50);
    let text = output_of(&game, gui);
    assert_eq!(text.lines().count(), 50);
    assert!(text.lines().all(|line| line.starts_with("bct ")));
}

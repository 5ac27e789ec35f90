//! What the server answers a graphical client's commands, and what it
//! sends a graphical client when it connects.
use vstd::prelude::*;

use crate::client::ClientId;
use crate::config::{digits_value, is_digit, parse_bounded, parse_unsigned};
use crate::constants::MAX_FREQUENCY;
use crate::entities::{Egg, Player, Team};
use crate::game::{
    lemma_wf_only_sent, player_position, to_client, to_guis, GameState,
};
use crate::gui_messages::{
    bct, bct_text, enw, enw_text, msz, msz_text, pin, pin_text, plv, plv_text, pnw, pnw_text, ppo,
    ppo_text, sgt, sgt_text, tna, tna_text,
};
use crate::text::{append, chars_of, decimal, digit_char, string_from_chars};
use crate::world::GameMap;

verus! {

/// `c` is white space, as `char::is_whitespace` has it.
pub open spec fn is_space(c: char) -> bool {
    ||| c == ' '
    ||| c == '\t'
    ||| c == '\n'
    ||| c == '\x0B'
    ||| c == '\x0C'
    ||| c == '\r'
    ||| c == '\u{85}'
    ||| c == '\u{A0}'
    ||| c == '\u{1680}'
    ||| ('\u{2000}' <= c && c <= '\u{200A}')
    ||| c == '\u{2028}'
    ||| c == '\u{2029}'
    ||| c == '\u{202F}'
    ||| c == '\u{205F}'
    ||| c == '\u{3000}'
}

/// The words of `chars` from `i` on, `done` being the words already found
/// and `current` the word under way: words are the runs of characters
/// that are not white space.
pub open spec fn words_from(chars: Seq<char>, i: int, current: Seq<char>, done: Seq<Seq<char>>) -> Seq<Seq<char>>
    decreases chars.len() - i,
{
    let ended = if current.len() > 0 {
        done.push(current)
    } else {
        done
    };
    if i < 0 || i >= chars.len() {
        ended
    } else if is_space(chars[i]) {
        words_from(chars, i + 1, Seq::empty(), ended)
    } else {
        words_from(chars, i + 1, current.push(chars[i]), done)
    }
}

/// The words of `line`.
pub open spec fn words_of(line: Seq<char>) -> Seq<Seq<char>> {
    words_from(line, 0, Seq::empty(), Seq::empty())
}

/// The texts of `strings`.
pub open spec fn string_texts(strings: Seq<String>) -> Seq<Seq<char>> {
    strings.map_values(|s: String| s@)
}

/// `c` is white space.
fn space(c: char) -> (space: bool)
    ensures
        space == is_space(c),
{
    c == ' ' || c == '\t' || c == '\n' || c == '\x0B' || c == '\x0C' || c == '\r' || c == '\u{85}'
        || c == '\u{A0}' || c == '\u{1680}' || ('\u{2000}' <= c && c <= '\u{200A}') || c == '\u{2028}'
        || c == '\u{2029}' || c == '\u{202F}' || c == '\u{205F}' || c == '\u{3000}'
}

/// The words of `line`, split at white space.
pub fn split_words(line: &str) -> (words: Vec<String>)
    ensures
        string_texts(words@) == words_of(line@),
{
    let chars = chars_of(line);
    let mut words: Vec<String> = Vec::new();
    let mut current: Vec<char> = Vec::new();
    let mut i: usize = 0;
    proof {
        assert(string_texts(words@) =~= Seq::<Seq<char>>::empty());
    }
    while i < chars.len()
        invariant
            i <= chars@.len(),
            chars@ == line@,
            words_of(line@) == words_from(line@, i as int, current@, string_texts(words@)),
        decreases chars@.len() - i,
    {
        let c = chars[i];
        proof {
            let done = string_texts(words@);
            assert(words_from(line@, i as int, current@, done) == if is_space(c) {
                words_from(line@, i + 1, Seq::empty(), if current@.len() > 0 { done.push(current@) } else { done })
            } else {
                words_from(line@, i + 1, current@.push(c), done)
            });
        }
        let ghost done = string_texts(words@);
        let ghost word = current@;
        if space(c) {
            if current.len() > 0 {
                let ghost before = words@;
                words.push(string_from_chars(current.as_slice()));
                assert(string_texts(words@) =~= string_texts(before).push(current@));
                current = Vec::new();
                assert(words_of(line@) == words_from(line@, i + 1, current@, string_texts(words@)));
            } else {
                assert(current@ =~= Seq::<char>::empty());
                assert(words_of(line@) == words_from(line@, i + 1, current@, string_texts(words@)));
            }
        } else {
            current.push(c);
            assert(current@ == word.push(c));
            assert(string_texts(words@) == done);
            assert(words_of(line@) == words_from(line@, i + 1, current@, string_texts(words@)));
        }
        i = i + 1;
    }
    if current.len() > 0 {
        let ghost before = words@;
        words.push(string_from_chars(current.as_slice()));
        assert(string_texts(words@) =~= string_texts(before).push(current@));
    }
    words
}

/// `bct X Y` for every row of column `x`, top to bottom, over `rows` rows.
pub open spec fn column_text(map: GameMap, x: nat, rows: nat) -> Seq<char>
    decreases rows,
{
    if rows == 0 {
        Seq::empty()
    } else {
        column_text(map, x, (rows - 1) as nat) + bct_text(x, (rows - 1) as nat, map.tile(x as int, rows - 1))
    }
}

/// `bct X Y` for every tile of the first `columns` columns, column by
/// column.
pub open spec fn map_content_text(map: GameMap, columns: nat) -> Seq<char>
    decreases columns,
{
    if columns == 0 {
        Seq::empty()
    } else {
        map_content_text(map, (columns - 1) as nat) + column_text(map, (columns - 1) as nat, map.spec_height())
    }
}

/// `tna N` for every team, in order.
pub open spec fn teams_text(teams: Seq<Team>) -> Seq<char>
    decreases teams.len(),
{
    if teams.len() == 0 {
        Seq::empty()
    } else {
        teams_text(teams.drop_last()) + tna_text(teams.last().name@)
    }
}

/// What a graphical client asks of one player.
#[derive(Clone, Copy)]
pub enum PlayerQuery {
    /// `ppo`
    Position,
    /// `plv`
    Level,
    /// `pin`
    Inventory,
}

/// The answer about player `p`.
pub open spec fn query_text(query: PlayerQuery, p: Player) -> Seq<char> {
    match query {
        PlayerQuery::Position => ppo_text(p),
        PlayerQuery::Level => plv_text(p),
        PlayerQuery::Inventory => pin_text(p),
    }
}

/// The player number written `value`, with or without a leading `#`.
pub open spec fn hash_id(value: Seq<char>) -> Option<nat> {
    let digits = if value.len() > 0 && value[0] == '#' {
        value.drop_first()
    } else {
        value
    };
    parse_unsigned(digits, usize::MAX as nat)
}

/// The decimal writing of `n` is made of digits and is worth `n`.
proof fn lemma_decimal_digits(n: nat)
    ensures
        decimal(n).len() > 0,
        forall|k: int| 0 <= k < decimal(n).len() ==> #[trigger] is_digit(decimal(n)[k]),
        digits_value(decimal(n)) == n,
    decreases n,
{
    let d = decimal(n);
    let c = digit_char(n % 10);
    assert(c as nat - '0' as nat == n % 10 && is_digit(c));
    if n >= 10 {
        lemma_decimal_digits(n / 10);
        assert(d.drop_last() =~= decimal(n / 10));
        assert(forall|k: int| 0 <= k < d.len() - 1 ==> d[k] == decimal(n / 10)[k]);
        assert(digits_value(d) == digits_value(decimal(n / 10)) * 10 + (c as nat - '0' as nat));
        assert((n / 10) * 10 + n % 10 == n);
    } else {
        assert(d.drop_last() =~= Seq::<char>::empty());
        assert(digits_value(d) == digits_value(d.drop_last()) * 10 + (c as nat - '0' as nat));
    }
}

/// A player or egg number as the messages write it, `#` and its decimal
/// writing, reads back as that number.
pub proof fn lemma_hash_id_round_trip(n: nat)
    requires
        n <= usize::MAX,
    ensures
        hash_id(seq!['#'] + decimal(n)) == Some(n),
{
    lemma_decimal_digits(n);
    let text = seq!['#'] + decimal(n);
    assert(text.drop_first() =~= decimal(n));
    assert(is_digit(decimal(n)[0]));
}

/// The answer to `bct X Y`: the tile's content, `sbp` for bad parameters.
pub open spec fn tile_answer(map: GameMap, words: Seq<Seq<char>>) -> Seq<char> {
    if words.len() != 3 {
        "sbp\n"@
    } else {
        match (parse_unsigned(words[1], usize::MAX as nat), parse_unsigned(words[2], usize::MAX as nat)) {
            (Some(x), Some(y)) => if map.contains(x as int, y as int) {
                bct_text(x, y, map.tile(x as int, y as int))
            } else {
                "sbp\n"@
            },
            _ => "sbp\n"@,
        }
    }
}

/// The answer to `ppo #n`, `plv #n` or `pin #n`: `sbp` for bad parameters
/// or an unknown player.
pub open spec fn player_answer(players: Seq<Player>, query: PlayerQuery, words: Seq<Seq<char>>) -> Seq<char> {
    if words.len() != 2 {
        "sbp\n"@
    } else {
        match hash_id(words[1]) {
            None => "sbp\n"@,
            Some(id) => match player_position(players, id as usize) {
                Some(i) => query_text(query, players[i]),
                None => "sbp\n"@,
            },
        }
    }
}

/// The new frequency that `sst T` sets: none unless `T` is a number from 1
/// to the highest frequency.
pub open spec fn sst_request(words: Seq<Seq<char>>) -> Option<nat> {
    if words.len() == 2 && words[0] == "sst"@ {
        match parse_unsigned(words[1], usize::MAX as nat) {
            Some(f) => if 1 <= f <= MAX_FREQUENCY {
                Some(f)
            } else {
                None
            },
            None => None,
        }
    } else {
        None
    }
}

/// What the server answers the graphical client's command `words`, but
/// for a frequency set: `suc` for an unknown command, `sbp` for bad
/// parameters.
pub open spec fn gui_answer(state: GameState, words: Seq<Seq<char>>) -> Seq<char> {
    if words.len() == 0 {
        "suc\n"@
    } else {
        let w = words[0];
        let alone = words.len() == 1;
        if w == "msz"@ && alone {
            msz_text(state.map.spec_width(), state.map.spec_height())
        } else if w == "mct"@ && alone {
            map_content_text(state.map, state.map.spec_width())
        } else if w == "tna"@ && alone {
            teams_text(state.teams@)
        } else if w == "sgt"@ && alone {
            sgt_text(state.frequency as nat)
        } else if w == "bct"@ {
            tile_answer(state.map, words)
        } else if w == "ppo"@ {
            player_answer(state.players@, PlayerQuery::Position, words)
        } else if w == "plv"@ {
            player_answer(state.players@, PlayerQuery::Level, words)
        } else if w == "pin"@ {
            player_answer(state.players@, PlayerQuery::Inventory, words)
        } else if w == "sst"@ || w == "msz"@ || w == "mct"@ || w == "tna"@ || w == "sgt"@ {
            "sbp\n"@
        } else {
            "suc\n"@
        }
    }
}

/// `after` is `before` once the graphical client `client_id` sent
/// `line`: `sst T` sets the frequency and tells every graphical client;
/// any other command is answered.
pub open spec fn gui_command_handled(before: GameState, after: GameState, client_id: ClientId, line: Seq<char>) -> bool {
    match sst_request(words_of(line)) {
        Some(f) => {
            &&& after.frequency == f
            &&& (GameState { frequency: before.frequency, ..after }).only_sent(before, seq![to_guis(sgt_text(f))])
        },
        None => after.only_sent(before, seq![to_client(client_id, gui_answer(before, words_of(line)))]),
    }
}

/// The player number written `value`, with or without a leading `#`.
pub fn parse_hash_id(value: &str) -> (id: Option<usize>)
    ensures
        match hash_id(value@) {
            Some(v) => id == Some(v as usize),
            None => id is None,
        },
{
    let chars = chars_of(value);
    let digits = if chars.len() > 0 && chars[0] == '#' {
        let mut rest: Vec<char> = Vec::new();
        let mut k: usize = 1;
        while k < chars.len()
            invariant
                1 <= k <= chars@.len(),
                rest@ == chars@.subrange(1, k as int),
            decreases chars@.len() - k,
        {
            rest.push(chars[k]);
            assert(rest@ =~= chars@.subrange(1, k + 1));
            k = k + 1;
        }
        assert(rest@ =~= value@.drop_first());
        string_from_chars(rest.as_slice())
    } else {
        string_from_chars(chars.as_slice())
    };
    parse_bounded(digits.as_str(), usize::MAX)
}

/// `bct X Y` for every tile, column by column.
fn map_content(map: &GameMap) -> (text: String)
    requires
        map.wf(),
    ensures
        text@ == map_content_text(*map, map.spec_width()),
{
    let mut text = String::new();
    let width = map.width();
    let height = map.height();
    let mut x: usize = 0;
    while x < width
        invariant
            map.wf(),
            width == map.spec_width(),
            height == map.spec_height(),
            x <= width,
            text@ == map_content_text(*map, x as nat),
        decreases width - x,
    {
        let mut y: usize = 0;
        let ghost before = text@;
        while y < height
            invariant
                map.wf(),
                width == map.spec_width(),
                height == map.spec_height(),
                x < width,
                y <= height,
                text@ == before + column_text(*map, x as nat, y as nat),
            decreases height - y,
        {
            let tile = bct(map, x, y);
            append(&mut text, tile.as_str());
            assert(text@ =~= before + column_text(*map, x as nat, (y + 1) as nat));
            y = y + 1;
        }
        x = x + 1;
    }
    text
}

/// `tna N` for every team, in order.
fn teams_content(teams: &Vec<Team>) -> (text: String)
    ensures
        text@ == teams_text(teams@),
{
    let mut text = String::new();
    let mut k: usize = 0;
    while k < teams.len()
        invariant
            k <= teams@.len(),
            text@ == teams_text(teams@.take(k as int)),
        decreases teams@.len() - k,
    {
        assert(teams@.take(k + 1).drop_last() =~= teams@.take(k as int));
        let line = tna(teams[k].name.as_str());
        append(&mut text, line.as_str());
        k = k + 1;
    }
    assert(teams@.take(k as int) =~= teams@);
    text
}

/// The answer to `bct X Y`.
fn handle_bct(game: &GameState, parts: &Vec<String>) -> (answer: String)
    requires
        game.map.wf(),
    ensures
        answer@ == tile_answer(game.map, string_texts(parts@)),
{
    if parts.len() != 3 {
        return "sbp\n".to_owned();
    }
    let x = parse_bounded(parts[1].as_str(), usize::MAX);
    let y = parse_bounded(parts[2].as_str(), usize::MAX);
    match (x, y) {
        (Some(x), Some(y)) => {
            if game.map.get_tile(x, y).is_none() {
                return "sbp\n".to_owned();
            }
            bct(&game.map, x, y)
        },
        _ => "sbp\n".to_owned(),
    }
}

/// The answer to `ppo #n`, `plv #n` or `pin #n`.
fn handle_player_query(game: &GameState, parts: &Vec<String>, query: PlayerQuery) -> (answer: String)
    ensures
        answer@ == player_answer(game.players@, query, string_texts(parts@)),
{
    if parts.len() != 2 {
        return "sbp\n".to_owned();
    }
    let player_id = match parse_hash_id(parts[1].as_str()) {
        Some(player_id) => player_id,
        None => return "sbp\n".to_owned(),
    };
    let i = match game.find_player(player_id) {
        Some(i) => i,
        None => return "sbp\n".to_owned(),
    };
    let player = &game.players[i];
    match query {
        PlayerQuery::Position => ppo(player),
        PlayerQuery::Level => plv(player),
        PlayerQuery::Inventory => pin(player),
    }
}

/// Answers the graphical client `client_id`'s command `line`; `sst T`
/// sets the frequency and tells every graphical client.
pub fn handle_command(game: &mut GameState, client_id: ClientId, line: &str)
    requires
        old(game).wf(),
    ensures
        final(game).wf(),
        gui_command_handled(*old(game), *final(game), client_id, line@),
{
    let parts = split_words(line);
    let ghost words = string_texts(parts@);
    proof {
        reveal_strlit("msz");
        reveal_strlit("mct");
        reveal_strlit("tna");
        reveal_strlit("sgt");
        reveal_strlit("bct");
        reveal_strlit("ppo");
        reveal_strlit("plv");
        reveal_strlit("pin");
        reveal_strlit("sst");
    }
    if parts.len() == 0 {
        let ghost before = *game;
        game.queue_to_client(client_id, "suc\n");
        proof {
            lemma_wf_only_sent(before, *game, seq![to_client(client_id, "suc\n"@)]);
        }
        return;
    }
    let command = parts[0].as_str();
    let alone = parts.len() == 1;
    let ghost w = words[0];
    if crate::text::same_text(command, "sst") {
        if parts.len() == 2 {
            if let Some(frequency) = parse_bounded(parts[1].as_str(), usize::MAX) {
                if 1 <= frequency && frequency <= MAX_FREQUENCY {
                    let ghost before = *game;
                    proof {
                        crate::timing::lemma_duration_positive(
                            crate::constants::RESOURCE_RESPAWN_TIME_UNITS as nat,
                            frequency as nat,
                        );
                    }
                    game.frequency = frequency;
                    let ghost set = *game;
                    let message = sgt(frequency);
                    game.broadcast_to_guis(message.as_str());
                    proof {
                        lemma_wf_only_sent(set, *game, seq![to_guis(message@)]);
                    }
                    return;
                }
            }
        }
        let ghost before = *game;
        proof {
            assert(w == "sst"@);
            assert(w[0] == 's' && w[1] == 's');
            assert(w != "msz"@) by { assert("msz"@[0] == 'm'); }
            assert(w != "mct"@) by { assert("mct"@[0] == 'm'); }
            assert(w != "tna"@) by { assert("tna"@[0] == 't'); }
            assert(w != "sgt"@) by { assert("sgt"@[1] == 'g'); }
            assert(w != "bct"@) by { assert("bct"@[0] == 'b'); }
            assert(w != "ppo"@) by { assert("ppo"@[0] == 'p'); }
            assert(w != "plv"@) by { assert("plv"@[0] == 'p'); }
            assert(w != "pin"@) by { assert("pin"@[0] == 'p'); }
            assert(sst_request(words) is None);
            assert(gui_answer(before, words) == "sbp\n"@);
        }
        game.queue_to_client(client_id, "sbp\n");
        proof {
            lemma_wf_only_sent(before, *game, seq![to_client(client_id, "sbp\n"@)]);
        }
        return;
    }
    let answer = if crate::text::same_text(command, "msz") && alone {
        msz(game.map.width(), game.map.height())
    } else if crate::text::same_text(command, "mct") && alone {
        map_content(&game.map)
    } else if crate::text::same_text(command, "tna") && alone {
        teams_content(&game.teams)
    } else if crate::text::same_text(command, "sgt") && alone {
        sgt(game.frequency)
    } else if crate::text::same_text(command, "bct") {
        handle_bct(game, &parts)
    } else if crate::text::same_text(command, "ppo") {
        handle_player_query(game, &parts, PlayerQuery::Position)
    } else if crate::text::same_text(command, "plv") {
        handle_player_query(game, &parts, PlayerQuery::Level)
    } else if crate::text::same_text(command, "pin") {
        handle_player_query(game, &parts, PlayerQuery::Inventory)
    } else if crate::text::same_text(command, "msz") || crate::text::same_text(command, "mct")
        || crate::text::same_text(command, "tna") || crate::text::same_text(command, "sgt") {
        "sbp\n".to_owned()
    } else {
        "suc\n".to_owned()
    };
    let ghost before = *game;
    game.queue_to_client(client_id, answer.as_str());
    proof {
        lemma_wf_only_sent(before, *game, seq![to_client(client_id, answer@)]);
    }
}


/// `pnw`, `pin` and `plv` for every player, in order.
pub open spec fn players_snapshot(players: Seq<Player>) -> Seq<char>
    decreases players.len(),
{
    if players.len() == 0 {
        Seq::empty()
    } else {
        let p = players.last();
        players_snapshot(players.drop_last()) + pnw_text(p) + pin_text(p) + plv_text(p)
    }
}

/// `enw` for every egg, in order.
pub open spec fn eggs_snapshot(eggs: Seq<Egg>) -> Seq<char>
    decreases eggs.len(),
{
    if eggs.len() == 0 {
        Seq::empty()
    } else {
        eggs_snapshot(eggs.drop_last()) + enw_text(eggs.last())
    }
}

/// What a graphical client gets when it connects: the map's size, the
/// time unit, every tile, the teams, the players by identifier and the
/// eggs by identifier.
pub open spec fn snapshot_text(state: GameState) -> Seq<char> {
    msz_text(state.map.spec_width(), state.map.spec_height()) + sgt_text(state.frequency as nat)
        + map_content_text(state.map, state.map.spec_width()) + teams_text(state.teams@) + players_snapshot(
        state.players@,
    ) + eggs_snapshot(state.eggs@)
}

/// Appends every tile's `bct`.
fn append_map(game: &GameState, output: &mut String)
    requires
        game.map.wf(),
    ensures
        final(output)@ == old(output)@ + map_content_text(game.map, game.map.spec_width()),
{
    let text = map_content(&game.map);
    append(output, text.as_str());
}

/// Appends every team's `tna`.
fn append_teams(game: &GameState, output: &mut String)
    ensures
        final(output)@ == old(output)@ + teams_text(game.teams@),
{
    let text = teams_content(&game.teams);
    append(output, text.as_str());
}

/// Appends `pnw`, `pin` and `plv` for every player, by identifier.
fn append_players(game: &GameState, output: &mut String)
    ensures
        final(output)@ == old(output)@ + players_snapshot(game.players@),
{
    let mut k: usize = 0;
    while k < game.players.len()
        invariant
            k <= game.players@.len(),
            output@ == old(output)@ + players_snapshot(game.players@.take(k as int)),
        decreases game.players@.len() - k,
    {
        assert(game.players@.take(k + 1).drop_last() =~= game.players@.take(k as int));
        let player = &game.players[k];
        let a = pnw(player);
        append(output, a.as_str());
        let b = pin(player);
        append(output, b.as_str());
        let c = plv(player);
        append(output, c.as_str());
        assert(output@ =~= old(output)@ + players_snapshot(game.players@.take(k + 1)));
        k = k + 1;
    }
    assert(game.players@.take(k as int) =~= game.players@);
}

/// Appends `enw` for every egg, by identifier.
fn append_eggs(game: &GameState, output: &mut String)
    ensures
        final(output)@ == old(output)@ + eggs_snapshot(game.eggs@),
{
    let mut k: usize = 0;
    while k < game.eggs.len()
        invariant
            k <= game.eggs@.len(),
            output@ == old(output)@ + eggs_snapshot(game.eggs@.take(k as int)),
        decreases game.eggs@.len() - k,
    {
        assert(game.eggs@.take(k + 1).drop_last() =~= game.eggs@.take(k as int));
        let text = enw(&game.eggs[k]);
        append(output, text.as_str());
        assert(output@ =~= old(output)@ + eggs_snapshot(game.eggs@.take(k + 1)));
        k = k + 1;
    }
    assert(game.eggs@.take(k as int) =~= game.eggs@);
}

/// What a graphical client gets when it connects.
pub fn initial_snapshot(game: &GameState) -> (text: String)
    requires
        game.map.wf(),
    ensures
        text@ == snapshot_text(*game),
{
    let mut output = msz(game.map.width(), game.map.height());
    let time = sgt(game.frequency);
    append(&mut output, time.as_str());
    append_map(game, &mut output);
    append_teams(game, &mut output);
    append_players(game, &mut output);
    append_eggs(game, &mut output);
    output
}


/// A frequency set with `sst` is the one that `sgt` reports next: the
/// asking client is told `sgt` with the new frequency, and nothing else
/// changes.
pub proof fn lemma_sst_then_sgt(
    before: GameState,
    set: GameState,
    after: GameState,
    setter: ClientId,
    asker: ClientId,
    set_line: Seq<char>,
    ask_line: Seq<char>,
)
    requires
        sst_request(words_of(set_line)) is Some,
        gui_command_handled(before, set, setter, set_line),
        words_of(ask_line) == seq!["sgt"@],
        gui_command_handled(set, after, asker, ask_line),
    ensures
        set.frequency == sst_request(words_of(set_line))->0,
        after.only_sent(set, seq![to_client(asker, sgt_text(sst_request(words_of(set_line))->0))]),
{
    reveal_strlit("sgt");
    reveal_strlit("sst");
    reveal_strlit("msz");
    reveal_strlit("mct");
    reveal_strlit("tna");
    assert("sgt"@ != "sst"@) by {
        assert("sgt"@[1] != "sst"@[1]);
    }
    assert("sgt"@ != "msz"@) by {
        assert("sgt"@[0] != "msz"@[0]);
    }
    assert("sgt"@ != "mct"@) by {
        assert("sgt"@[0] != "mct"@[0]);
    }
    assert("sgt"@ != "tna"@) by {
        assert("sgt"@[0] != "tna"@[0]);
    }
}

} // verus!

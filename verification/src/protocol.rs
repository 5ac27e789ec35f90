//! How the server reads what a client sends: line by line, each line
//! handled by the client's role.
use vstd::prelude::*;
use vstd::utf8::{decode_utf8, valid_utf8};

use crate::authentication::{ai_authenticated, gui_authenticated, has_team_named, team_eggs};
use crate::client::{complete_lines, line_text, outstanding, unfinished_line, without_carriage_return, ClientId, ClientState};
use crate::command::{parse_command, Command, CommandView};
use crate::constants::{GRAPHIC_TEAM_NAME, KO_RESPONSE, MAX_PENDING_COMMANDS};
use crate::game::{client_position, lemma_client_position_is, lemma_wf_only_sent, to_client, GameState};
use crate::gui::{gui_command_handled, handle_command};
use crate::text::same_text;

verus! {

/// The commands of `queue`, as views.
pub open spec fn queue_views(queue: Seq<Command>) -> Seq<CommandView> {
    queue.map_values(|c: Command| c@)
}

/// `after` is `before` once the AI client at position `c` sent `line`: the
/// command it spells is queued, unless the client already has as many
/// commands as allowed; nothing else changes.
pub open spec fn command_queued(before: GameState, after: GameState, c: int, line: Seq<char>) -> bool {
    let cl = before.clients@[c].1;
    let a = after.clients@[c].1;
    &&& after.same_world(before)
    &&& after.clients@.len() == before.clients@.len()
    &&& forall|j: int|
        #![trigger after.clients@[j]]
        0 <= j < before.clients@.len() && j != c ==> after.clients@[j] == before.clients@[j]
    &&& after.clients@[c].0 == before.clients@[c].0
    &&& queue_views(a.queue@) == if outstanding(cl) < MAX_PENDING_COMMANDS {
        queue_views(cl.queue@).push(parse_command(line))
    } else {
        queue_views(cl.queue@)
    }
    &&& a.input == cl.input
    &&& a.output == cl.output
    &&& a.output_offset == cl.output_offset
    &&& a.state == cl.state
    &&& a.team_name == cl.team_name
    &&& a.player_id == cl.player_id
    &&& a.active == cl.active
    &&& a.close_after_flush == cl.close_after_flush
}

/// `after` is `before` once client `token` sent `line` at `now`, by its
/// role: a client that has not introduced itself becomes a graphical
/// client with `GRAPHIC`, gets `ko` for an empty line, and otherwise asks
/// to play for the team the line names; an AI client queues a command; a
/// graphical client's command is answered. An unknown client changes
/// nothing.
pub open spec fn line_handled(before: GameState, after: GameState, token: ClientId, line: Seq<char>, now: u64) -> bool {
    match client_position(before.clients@, token) {
        None => after == before,
        Some(c) => match before.clients@[c].1.state {
            ClientState::WaitingTeamName => if line == GRAPHIC_TEAM_NAME@ {
                gui_authenticated(before, after, token)
            } else if line.len() == 0 || before.next_player_id == usize::MAX {
                after.only_sent(before, seq![to_client(token, KO_RESPONSE@)])
            } else {
                ai_authenticated(
                    before,
                    after,
                    token,
                    line,
                    now,
                    has_team_named(before.teams@, line) && team_eggs(before.eggs@, line).len() > 0,
                )
            },
            ClientState::Ai => command_queued(before, after, c, line),
            ClientState::Gui => gui_command_handled(before, after, token, line),
        },
    }
}

/// `states` are the states of the game while client `token`'s `lines` are
/// handled, in order, at `now`.
pub open spec fn lines_trace(states: Seq<GameState>, token: ClientId, lines: Seq<Seq<char>>, now: u64) -> bool {
    &&& states.len() == lines.len() + 1
    &&& forall|k: int| 0 <= k < lines.len() ==> #[trigger] line_handled(states[k], states[k + 1], token, lines[k], now)
}

/// `after` is `before` once client `token`'s `lines` were handled, in
/// order, at `now`.
pub open spec fn lines_handled(before: GameState, after: GameState, token: ClientId, lines: Seq<Seq<char>>, now: u64) -> bool {
    exists|states: Seq<GameState>|
        #![trigger lines_trace(states, token, lines, now)]
        lines_trace(states, token, lines, now) && states[0] == before && states.last() == after
}

/// `after` is `before` once the complete lines were taken out of the input
/// of the client at position `c`.
pub open spec fn lines_taken(before: GameState, after: GameState, c: int) -> bool {
    let cl = before.clients@[c].1;
    let a = after.clients@[c].1;
    &&& after.same_world(before)
    &&& after.clients@.len() == before.clients@.len()
    &&& forall|j: int|
        #![trigger after.clients@[j]]
        0 <= j < before.clients@.len() && j != c ==> after.clients@[j] == before.clients@[j]
    &&& after.clients@[c].0 == before.clients@[c].0
    &&& a.input@ == unfinished_line(cl.input@)
    &&& a.output == cl.output
    &&& a.output_offset == cl.output_offset
    &&& a.state == cl.state
    &&& a.team_name == cl.team_name
    &&& a.player_id == cl.player_id
    &&& a.queue == cl.queue
    &&& a.active == cl.active
    &&& a.close_after_flush == cl.close_after_flush
}

/// The texts of the complete lines of `input`.
pub open spec fn input_lines(input: Seq<u8>) -> Seq<Seq<char>> {
    complete_lines(input).map_values(|line: Seq<u8>| line_text(line))
}

/// `after` is `before` once every complete line that client `token` has
/// sent was taken out of its input and handled, in order, at `now`; an
/// unknown client changes nothing.
pub open spec fn lines_read(before: GameState, after: GameState, token: ClientId, now: u64) -> bool {
    match client_position(before.clients@, token) {
        None => after == before,
        Some(c) => exists|taken: GameState|
            #![trigger lines_taken(before, taken, c)]
            lines_taken(before, taken, c) && lines_handled(
                taken,
                after,
                token,
                input_lines(before.clients@[c].1.input@),
                now,
            ),
    }
}

/// Changing one client's queue, input or role keeps the state consistent
/// when the queue stays within bounds.
proof fn lemma_wf_one_client(before: GameState, after: GameState, c: int)
    requires
        before.wf(),
        0 <= c < before.clients@.len(),
        after.same_world(before),
        after.clients@.len() == before.clients@.len(),
        forall|j: int| 0 <= j < before.clients@.len() && j != c ==> #[trigger] after.clients@[j] == before.clients@[j],
        after.clients@[c].0 == before.clients@[c].0,
        after.clients@[c].1.queue@.len() <= MAX_PENDING_COMMANDS,
    ensures
        after.wf(),
{
    assert(after.client_ids() =~= before.client_ids()) by {
        assert forall|j: int| 0 <= j < after.clients@.len() implies #[trigger] after.client_ids()[j]
            == before.client_ids()[j] by {
            if j != c {
                assert(after.clients@[j] == before.clients@[j]);
            }
        }
    }
    assert forall|j: int| 0 <= j < after.clients@.len() implies (#[trigger] after.clients@[j]).0.0
        < after.next_client_id && after.clients@[j].1.queue@.len() <= MAX_PENDING_COMMANDS by {
        if j != c {
            assert(after.clients@[j] == before.clients@[j]);
        } else {
            let _ = before.clients@[j];
        }
    }
}

/// Queues the AI command that `line` spells for the client at position
/// `c`.
fn queue_ai_command(game: &mut GameState, c: usize, line: &str)
    requires
        old(game).wf(),
        c < old(game).clients@.len(),
    ensures
        final(game).wf(),
        command_queued(*old(game), *final(game), c as int, line@),
{
    let ghost start = *game;
    let command = Command::parse(line);
    let _ = game.clients[c].1.enqueue_command(command);
    proof {
        let _ = start.clients@[c as int];
        assert(queue_views(game.clients@[c as int].1.queue@) =~= if outstanding(start.clients@[c as int].1)
            < MAX_PENDING_COMMANDS {
            queue_views(start.clients@[c as int].1.queue@).push(parse_command(line@))
        } else {
            queue_views(start.clients@[c as int].1.queue@)
        });
        lemma_wf_one_client(start, *game, c as int);
    }
}

/// What a client that has not introduced itself says: `GRAPHIC`, or a
/// team name.
fn handle_handshake(game: &mut GameState, token: ClientId, line: &str, now: u64)
    requires
        old(game).wf(),
        client_position(old(game).clients@, token) is Some,
    ensures
        final(game).wf(),
        if line@ == GRAPHIC_TEAM_NAME@ {
            gui_authenticated(*old(game), *final(game), token)
        } else if line@.len() == 0 || old(game).next_player_id == usize::MAX {
            final(game).only_sent(*old(game), seq![to_client(token, KO_RESPONSE@)])
        } else {
            ai_authenticated(
                *old(game),
                *final(game),
                token,
                line@,
                now,
                has_team_named(old(game).teams@, line@) && team_eggs(old(game).eggs@, line@).len() > 0,
            )
        },
{
    let ghost start = *game;
    if same_text(line, GRAPHIC_TEAM_NAME) {
        game.authenticate_gui(token);
        return;
    }
    if line.is_empty() || game.next_player_id == usize::MAX {
        game.queue_to_client(token, KO_RESPONSE);
        proof {
            lemma_wf_only_sent(start, *game, seq![to_client(token, KO_RESPONSE@)]);
        }
        return;
    }
    let _ = game.authenticate_ai(token, line, now);
}

/// Handles one line from client `token` at `now`, by the client's role.
pub fn handle_client_line(game: &mut GameState, token: ClientId, line: &str, now: u64)
    requires
        old(game).wf(),
    ensures
        final(game).wf(),
        line_handled(*old(game), *final(game), token, line@, now),
{
    let c = match game.find_client(token) {
        Some(c) => c,
        None => return,
    };
    proof {
        lemma_client_position_is(game.clients@, token, c as int);
    }
    match game.clients[c].1.state {
        ClientState::WaitingTeamName => handle_handshake(game, token, line, now),
        ClientState::Ai => queue_ai_command(game, c, line),
        ClientState::Gui => handle_command(game, token, line),
    }
}

/// Handles, in order, every complete line that client `token` has sent,
/// at `now`; the unfinished line stays in its input.
pub fn handle_complete_client_lines(game: &mut GameState, token: ClientId, now: u64)
    requires
        old(game).wf(),
    ensures
        final(game).wf(),
        lines_read(*old(game), *final(game), token, now),
        client_position(old(game).clients@, token) matches Some(c) ==> forall|i: int|
            0 <= i < complete_lines(old(game).clients@[c].1.input@).len() && valid_utf8(
                without_carriage_return(complete_lines(old(game).clients@[c].1.input@)[i]),
            ) ==> #[trigger] input_lines(old(game).clients@[c].1.input@)[i] == decode_utf8(
                without_carriage_return(complete_lines(old(game).clients@[c].1.input@)[i]),
            ),
{
    let ghost start = *game;
    let c = match game.find_client(token) {
        Some(c) => c,
        None => return,
    };
    proof {
        lemma_client_position_is(start.clients@, token, c as int);
    }
    let lines = game.clients[c].1.extract_complete_lines();
    let ghost taken = *game;
    let ghost texts = input_lines(start.clients@[c as int].1.input@);
    proof {
        let _ = start.clients@[c as int];
        assert forall|j: int| 0 <= j < start.clients@.len() && j != c implies #[trigger] taken.clients@[j]
            == start.clients@[j] by {
        }
        lemma_wf_one_client(start, taken, c as int);
        assert(lines_taken(start, taken, c as int));
        assert(lines@.len() == texts.len());
        assert forall|k: int| 0 <= k < lines@.len() implies #[trigger] lines@[k]@ == texts[k] by {
        }
        let input = start.clients@[c as int].1.input@;
        assert forall|i: int|
            0 <= i < complete_lines(input).len() && valid_utf8(without_carriage_return(complete_lines(input)[i]))
                implies #[trigger] input_lines(input)[i] == decode_utf8(without_carriage_return(complete_lines(input)[i])) by {
            assert(lines@[i]@ == texts[i]);
        }
    }
    let ghost mut states: Seq<GameState> = seq![taken];
    let mut k: usize = 0;
    while k < lines.len()
        invariant
            game.wf(),
            start == *old(game),
            lines_taken(start, taken, c as int),
            texts == input_lines(start.clients@[c as int].1.input@),
            client_position(start.clients@, token) == Some(c as int),
            k <= lines@.len(),
            lines@.len() == texts.len(),
            forall|m: int| 0 <= m < lines@.len() ==> #[trigger] lines@[m]@ == texts[m],
            lines_trace(states, token, texts.take(k as int), now),
            states[0] == taken,
            states.last() == *game,
        decreases lines@.len() - k,
    {
        handle_client_line(game, token, lines[k].as_str(), now);
        proof {
            let next = texts.take(k + 1);
            let new_states = states.push(*game);
            assert forall|m: int| 0 <= m < next.len() implies #[trigger] line_handled(
                new_states[m],
                new_states[m + 1],
                token,
                next[m],
                now,
            ) by {
                if m < k {
                    assert(line_handled(states[m], states[m + 1], token, texts.take(k as int)[m], now));
                }
            }
            states = new_states;
        }
        k = k + 1;
    }
    proof {
        assert(texts.take(k as int) =~= texts);
        assert(lines_trace(states, token, texts, now));
        assert(lines_handled(taken, *game, token, texts, now));
        assert(lines_taken(start, taken, c as int) && lines_handled(
            taken,
            *game,
            token,
            input_lines(start.clients@[c as int].1.input@),
            now,
        ));
        assert(client_position(start.clients@, token) == Some(c as int));
        assert(lines_read(start, *game, token, now));
    }
}

} // verus!

//! The connections as the game sees them: clients join with a welcome,
//! leave with their player, and readiness reported by the system becomes
//! events.
use vstd::prelude::*;
use vstd::utf8::encode_utf8;

use crate::client::{Client, ClientId, ClientState};
use crate::constants::WELCOME_MESSAGE;
use crate::game::{client_position, strictly_increasing, GameState};
use crate::lifecycle::disconnected;

verus! {

/// What a readiness event is about.
#[derive(Clone, Copy, Debug, PartialEq, Eq, Structural)]
pub enum PollTarget {
    /// The listening socket: a client is waiting to be accepted.
    Listener,
    /// A client's connection.
    Client(ClientId),
}

/// What the system reported ready for a connection.
#[derive(Clone, Copy, Debug, PartialEq, Eq, Structural)]
pub struct PollEvent {
    pub target: PollTarget,
    /// There are bytes to read.
    pub readable: bool,
    /// Bytes can be written.
    pub writable: bool,
    /// The connection failed or was hung up.
    pub closed: bool,
}

/// The event for `target` whose reported flags are `revents`, the masks
/// telling which flags mean what; none when nothing was reported.
pub open spec fn event_of(
    target: PollTarget,
    revents: i16,
    readable_mask: i16,
    writable_mask: i16,
    closed_mask: i16,
) -> Option<PollEvent> {
    if revents == 0 {
        None
    } else {
        Some(
            PollEvent {
                target,
                readable: revents & readable_mask != 0,
                writable: revents & writable_mask != 0,
                closed: revents & closed_mask != 0,
            },
        )
    }
}

/// The event for `target` whose reported flags are `revents` (see
/// `event_of`).
pub fn poll_event(
    target: PollTarget,
    revents: i16,
    readable_mask: i16,
    writable_mask: i16,
    closed_mask: i16,
) -> (event: Option<PollEvent>)
    ensures
        event == event_of(target, revents, readable_mask, writable_mask, closed_mask),
{
    if revents == 0 {
        None
    } else {
        Some(
            PollEvent {
                target,
                readable: revents & readable_mask != 0,
                writable: revents & writable_mask != 0,
                closed: revents & closed_mask != 0,
            },
        )
    }
}

/// What the server is to do about a readiness event, in order.
#[derive(Clone, Copy, Debug, PartialEq, Eq, Structural)]
pub enum EventStep {
    /// Accept the clients waiting on the listening socket.
    Accept,
    /// Read what the client sent and handle its complete lines.
    Read(ClientId),
    /// Send what is queued for the client.
    Flush(ClientId),
    /// Let the client go.
    Drop(ClientId),
}

/// The steps for `event`: accepting for a readable listener; reading,
/// sending and letting go of a client, in that order, as far as it is
/// readable, writable and closed.
pub open spec fn steps_for(event: PollEvent) -> Seq<EventStep> {
    match event.target {
        PollTarget::Listener => if event.readable {
            seq![EventStep::Accept]
        } else {
            Seq::empty()
        },
        PollTarget::Client(id) => (if event.readable {
            seq![EventStep::Read(id)]
        } else {
            Seq::empty()
        }) + (if event.writable {
            seq![EventStep::Flush(id)]
        } else {
            Seq::empty()
        }) + (if event.closed {
            seq![EventStep::Drop(id)]
        } else {
            Seq::empty()
        }),
    }
}

/// The steps for `event` (see `steps_for`).
pub fn event_steps(event: PollEvent) -> (steps: Vec<EventStep>)
    ensures
        steps@ == steps_for(event),
{
    let mut steps: Vec<EventStep> = Vec::new();
    match event.target {
        PollTarget::Listener => {
            if event.readable {
                steps.push(EventStep::Accept);
            }
            assert(steps@ =~= steps_for(event));
        },
        PollTarget::Client(id) => {
            if event.readable {
                steps.push(EventStep::Read(id));
            }
            if event.writable {
                steps.push(EventStep::Flush(id));
            }
            if event.closed {
                steps.push(EventStep::Drop(id));
            }
            assert(steps@ =~= steps_for(event));
        },
    }
    steps
}

/// What to watch each client of `clients` for, in order: its identifier,
/// and whether it has output waiting to be sent, besides input to read.
pub open spec fn watch_list(clients: Seq<(ClientId, Client)>) -> Seq<(ClientId, bool)> {
    clients.map_values(|c: (ClientId, Client)| (c.0, c.1.output_offset < c.1.output@.len()))
}

/// What to watch each connected client for (see `watch_list`).
pub fn poll_interest(game: &GameState) -> (watch: Vec<(ClientId, bool)>)
    ensures
        watch@ == watch_list(game.clients@),
{
    let mut watch: Vec<(ClientId, bool)> = Vec::new();
    let mut k: usize = 0;
    while k < game.clients.len()
        invariant
            k <= game.clients@.len(),
            watch@ == watch_list(game.clients@.take(k as int)),
        decreases game.clients@.len() - k,
    {
        let pending = game.clients[k].1.has_pending_output();
        watch.push((game.clients[k].0, pending));
        proof {
            assert(watch_list(game.clients@.take(k + 1)) =~= watch_list(game.clients@.take(k as int)).push(
                (game.clients@[k as int].0, pending),
            ));
        }
        k = k + 1;
    }
    assert(game.clients@.take(k as int) =~= game.clients@);
    watch
}

/// `client` has just joined: it has been sent the welcome and nothing
/// else, and has said nothing yet.
pub open spec fn welcomed(client: Client) -> bool {
    &&& client.input@.len() == 0
    &&& client.output@ == encode_utf8(WELCOME_MESSAGE@)
    &&& client.output_offset == 0
    &&& client.state == ClientState::WaitingTeamName
    &&& client.team_name is None
    &&& client.player_id is None
    &&& client.queue@.len() == 0
    &&& client.active is None
    &&& !client.close_after_flush
}

/// `after` is `before` with a new client, called `client_id`, that has
/// just joined.
pub open spec fn client_registered(before: GameState, after: GameState, client_id: ClientId) -> bool {
    &&& client_id.0 == before.next_client_id
    &&& after.next_client_id == before.next_client_id + 1
    &&& after.clients@.len() == before.clients@.len() + 1
    &&& after.clients@.drop_last() == before.clients@
    &&& after.clients@.last().0 == client_id
    &&& welcomed(after.clients@.last().1)
    &&& after.players@ == before.players@
    &&& after.eggs@ == before.eggs@
    &&& after.teams@ == before.teams@
    &&& after.map == before.map
    &&& after.frequency == before.frequency
    &&& after.next_player_id == before.next_player_id
    &&& after.next_egg_id == before.next_egg_id
    &&& after.next_incantation_id == before.next_incantation_id
    &&& after.next_resource_spawn == before.next_resource_spawn
    &&& after.incantations@ == before.incantations@
    &&& after.winner == before.winner
}

/// Registers a client that has just connected and queues the welcome to
/// it; none once every identifier has been handed out, the game then
/// unchanged.
pub fn register_client(game: &mut GameState) -> (client_id: Option<ClientId>)
    requires
        old(game).wf(),
    ensures
        final(game).wf(),
        match client_id {
            Some(id) => client_registered(*old(game), *final(game), id),
            None => old(game).next_client_id == usize::MAX && *final(game) == *old(game),
        },
{
    if game.next_client_id == usize::MAX {
        return None;
    }
    let client_id = game.allocate_client_id();
    let mut client = Client::new();
    client.queue_text(WELCOME_MESSAGE);
    assert(client.output@ =~= encode_utf8(WELCOME_MESSAGE@));
    let ghost before = game.clients@;
    game.clients.push((client_id, client));
    proof {
        let g = *game;
        assert(g.clients@.drop_last() =~= before);
        assert(g.client_ids() =~= old(game).client_ids().push(client_id.0));
        assert forall|i: int| 0 <= i < g.clients@.len() implies (#[trigger] g.clients@[i]).0.0
            < g.next_client_id && g.clients@[i].1.queue@.len() <= crate::constants::MAX_PENDING_COMMANDS by {
            if i < before.len() {
                assert(g.clients@[i] == old(game).clients@[i]);
            }
        }
        assert(strictly_increasing(g.client_ids())) by {
            assert forall|a: int, b: int| 0 <= a < b < g.client_ids().len() implies g.client_ids()[a]
                < g.client_ids()[b] by {
                if b < before.len() {
                    assert(old(game).client_ids()[a] < old(game).client_ids()[b]);
                } else {
                    assert(old(game).clients@[a].0.0 < old(game).next_client_id);
                }
            }
        }
    }
    Some(client_id)
}

/// `after` is `before` once the client `client_id` was removed: the player
/// it played left (see `disconnected`), then its connection was forgotten.
pub open spec fn client_removed(before: GameState, after: GameState, client_id: ClientId) -> bool {
    exists|mid: GameState|
        #![trigger disconnected(before, mid, client_id)]
        disconnected(before, mid, client_id) && after.same_world(mid) && match client_position(
            mid.clients@,
            client_id,
        ) {
            Some(k) => after.clients@ == mid.clients@.remove(k),
            None => after.clients@ == mid.clients@,
        }
}

/// Forgetting a client keeps the state consistent.
proof fn lemma_wf_client_removed(before: GameState, after: GameState, k: int)
    requires
        before.wf(),
        0 <= k < before.clients@.len(),
        after.same_world(before),
        after.clients@ == before.clients@.remove(k),
    ensures
        after.wf(),
{
    assert(after.client_ids() =~= before.client_ids().remove(k));
    assert forall|a: int, b: int| 0 <= a < b < after.client_ids().len() implies after.client_ids()[a]
        < after.client_ids()[b] by {
        let a0 = if a < k { a } else { a + 1 };
        let b0 = if b < k { b } else { b + 1 };
        assert(before.client_ids()[a0] < before.client_ids()[b0]);
    }
    assert forall|i: int| 0 <= i < after.clients@.len() implies (#[trigger] after.clients@[i]).0.0
        < after.next_client_id && after.clients@[i].1.queue@.len() <= crate::constants::MAX_PENDING_COMMANDS by {
        let i0 = if i < k { i } else { i + 1 };
        assert(after.clients@[i] == before.clients@[i0]);
    }
}

/// Removes the client `client_id`: the player it played leaves, then the
/// connection is forgotten.
pub fn remove_client(game: &mut GameState, client_id: ClientId)
    requires
        old(game).wf(),
    ensures
        final(game).wf(),
        client_removed(*old(game), *final(game), client_id),
{
    game.handle_client_disconnect(client_id);
    let ghost mid = *game;
    match game.find_client(client_id) {
        Some(k) => {
            game.clients.remove(k);
            proof {
                lemma_wf_client_removed(mid, *game, k as int);
            }
        },
        None => {},
    }
    assert(disconnected(*old(game), mid, client_id));
}

/// `client_position` finds the first entry with the identifier.
proof fn lemma_client_position_at(clients: Seq<(ClientId, Client)>, id: ClientId, j: int)
    requires
        0 <= j < clients.len(),
        clients[j].0 == id,
        forall|k: int| 0 <= k < j ==> (#[trigger] clients[k]).0 != id,
    ensures
        client_position(clients, id) == Some(j),
    decreases j,
{
    if j > 0 {
        let rest = clients.drop_first();
        assert(clients[0].0 != id);
        assert forall|k: int| 0 <= k < j - 1 implies (#[trigger] rest[k]).0 != id by {
            assert(rest[k] == clients[k + 1]);
        }
        lemma_client_position_at(rest, id, j - 1);
    }
}

/// A client that joins gets an identifier that no connected client has.
pub proof fn lemma_new_client_id_fresh(before: GameState, after: GameState, client_id: ClientId)
    requires
        before.wf(),
        client_registered(before, after, client_id),
    ensures
        forall|j: int| 0 <= j < before.clients@.len() ==> (#[trigger] before.clients@[j]).0 != client_id,
{
}

/// A client that joins and leaves before it plays takes nothing with it:
/// the connections are as they were, and so is the rest of the game, but
/// that its identifier has been used.
pub proof fn lemma_join_then_leave(before: GameState, joined: GameState, after: GameState, client_id: ClientId)
    requires
        before.wf(),
        client_registered(before, joined, client_id),
        client_removed(joined, after, client_id),
    ensures
        after.clients@ == before.clients@,
        after.same_world(GameState { next_client_id: after.next_client_id, ..before }),
        after.next_client_id == before.next_client_id + 1,
{
    let last = before.clients@.len() as int;
    assert(joined.clients@[last] == joined.clients@.last());
    assert forall|k: int| 0 <= k < last implies (#[trigger] joined.clients@[k]).0 != client_id by {
        assert(joined.clients@[k] == before.clients@[k]);
    }
    lemma_client_position_at(joined.clients@, client_id, last);
    let mid = choose|mid: GameState|
        #![trigger disconnected(joined, mid, client_id)]
        disconnected(joined, mid, client_id) && after.same_world(mid) && match client_position(
            mid.clients@,
            client_id,
        ) {
            Some(k) => after.clients@ == mid.clients@.remove(k),
            None => after.clients@ == mid.clients@,
        };
    assert(mid == joined);
    assert(joined.clients@.remove(last) =~= before.clients@);
}

/// The clients of `clients` that asked to be closed and have been sent
/// everything, in order.
pub open spec fn closing_ids(clients: Seq<(ClientId, Client)>) -> Seq<ClientId>
    decreases clients.len(),
{
    if clients.len() == 0 {
        Seq::empty()
    } else {
        let rest = closing_ids(clients.drop_last());
        let c = clients.last();
        if c.1.close_after_flush && !(c.1.output_offset < c.1.output@.len()) {
            rest.push(c.0)
        } else {
            rest
        }
    }
}

/// Adds to `disconnected` the clients that asked to be closed and have
/// been sent everything, in order.
pub fn collect_closed_clients(game: &GameState, disconnected: &mut Vec<ClientId>)
    ensures
        final(disconnected)@ == old(disconnected)@ + closing_ids(game.clients@),
{
    let ghost start = disconnected@;
    let mut k: usize = 0;
    while k < game.clients.len()
        invariant
            k <= game.clients@.len(),
            disconnected@ == start + closing_ids(game.clients@.take(k as int)),
        decreases game.clients@.len() - k,
    {
        assert(game.clients@.take(k + 1).drop_last() =~= game.clients@.take(k as int));
        let client = &game.clients[k].1;
        if client.close_after_flush && !client.has_pending_output() {
            disconnected.push(game.clients[k].0);
        }
        proof {
            assert(disconnected@ =~= start + closing_ids(game.clients@.take(k + 1)));
        }
        k = k + 1;
    }
    assert(game.clients@.take(k as int) =~= game.clients@);
}

/// `states` are the states of the game while the clients `ids` are
/// removed, in order.
pub open spec fn removal_trace(states: Seq<GameState>, ids: Seq<ClientId>) -> bool {
    &&& states.len() == ids.len() + 1
    &&& forall|k: int| 0 <= k < ids.len() ==> #[trigger] client_removed(states[k], states[k + 1], ids[k])
}

/// Removes the clients `client_ids`, in order; a client named twice is
/// removed once, the second removal finding it gone.
pub fn remove_clients(game: &mut GameState, client_ids: Vec<ClientId>)
    requires
        old(game).wf(),
    ensures
        final(game).wf(),
        exists|states: Seq<GameState>|
            #![trigger removal_trace(states, client_ids@)]
            removal_trace(states, client_ids@) && states[0] == *old(game) && states.last() == *final(game),
{
    let ghost mut states: Seq<GameState> = seq![*game];
    let mut k: usize = 0;
    while k < client_ids.len()
        invariant
            k <= client_ids@.len(),
            game.wf(),
            states.len() == k + 1,
            states[0] == *old(game),
            states.last() == *game,
            forall|j: int| 0 <= j < k ==> #[trigger] client_removed(states[j], states[j + 1], client_ids@[j]),
        decreases client_ids@.len() - k,
    {
        remove_client(game, client_ids[k]);
        proof {
            states = states.push(*game);
        }
        k = k + 1;
    }
    assert(removal_trace(states, client_ids@));
}

} // verus!

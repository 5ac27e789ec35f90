//! The state of a game: connected clients, players, eggs, teams, the map
//! and the incantations under way; and how messages reach the clients.
use vstd::prelude::*;
use vstd::utf8::encode_utf8;

use crate::client::{same_but_output, Client, ClientId, ClientState};
use crate::constants::{MAX_PENDING_COMMANDS, RESOURCE_RESPAWN_TIME_UNITS};
use crate::entities::{Egg, Player, Team};
use crate::incantation::Incantation;
use crate::timing::{duration_for, duration_nanos};
use crate::world::GameMap;

verus! {

/// Who a message is for.
pub enum Recipient {
    /// One connection.
    Client(ClientId),
    /// Every graphical client.
    Guis,
}

/// A message sent during an operation, described for contracts.
pub struct Mail {
    pub to: Recipient,
    pub text: Seq<char>,
}

/// A message to one client.
pub open spec fn to_client(id: ClientId, text: Seq<char>) -> Mail {
    Mail { to: Recipient::Client(id), text }
}

/// A message to every graphical client.
pub open spec fn to_guis(text: Seq<char>) -> Mail {
    Mail { to: Recipient::Guis, text }
}

/// `mail` is for the client `id` in state `client`.
pub open spec fn addressed(to: Recipient, id: ClientId, client: Client) -> bool {
    match to {
        Recipient::Client(target) => target == id,
        Recipient::Guis => client.state == ClientState::Gui,
    }
}

/// The bytes that the messages of `mail` add, in order, to the output of
/// client `id`.
pub open spec fn mail_bytes(mail: Seq<Mail>, id: ClientId, client: Client) -> Seq<u8>
    decreases mail.len(),
{
    if mail.len() == 0 {
        Seq::empty()
    } else {
        mail_bytes(mail.drop_last(), id, client) + if addressed(mail.last().to, id, client) {
            encode_utf8(mail.last().text)
        } else {
            Seq::empty()
        }
    }
}

/// `after` is `before` once the messages of `mail` were queued: every
/// client's output grew by the messages addressed to it, and nothing else
/// about the clients changed.
pub open spec fn delivered(
    before: Seq<(ClientId, Client)>,
    after: Seq<(ClientId, Client)>,
    mail: Seq<Mail>,
) -> bool {
    &&& after.len() == before.len()
    &&& forall|i: int|
        #![trigger after[i]]
        0 <= i < before.len() ==> {
            &&& after[i].0 == before[i].0
            &&& same_but_output(before[i].1, after[i].1)
            &&& after[i].1.output@ == before[i].1.output@ + mail_bytes(
                mail,
                before[i].0,
                before[i].1,
            )
        }
}

/// The messages of two lists, the first first.
pub proof fn lemma_mail_bytes_concat(m1: Seq<Mail>, m2: Seq<Mail>, id: ClientId, client: Client)
    ensures
        mail_bytes(m1 + m2, id, client) == mail_bytes(m1, id, client) + mail_bytes(
            m2,
            id,
            client,
        ),
    decreases m2.len(),
{
    if m2.len() == 0 {
        assert(m1 + m2 =~= m1);
    } else {
        lemma_mail_bytes_concat(m1, m2.drop_last(), id, client);
        assert((m1 + m2).drop_last() =~= m1 + m2.drop_last());
    }
}

/// Only a client's role decides which messages are for it.
pub proof fn lemma_mail_bytes_same_state(mail: Seq<Mail>, id: ClientId, a: Client, b: Client)
    requires
        a.state == b.state,
    ensures
        mail_bytes(mail, id, a) == mail_bytes(mail, id, b),
    decreases mail.len(),
{
    if mail.len() > 0 {
        lemma_mail_bytes_same_state(mail.drop_last(), id, a, b);
    }
}

/// Queuing messages one batch after another queues them all, in order.
pub proof fn lemma_delivered_chain(
    a: Seq<(ClientId, Client)>,
    b: Seq<(ClientId, Client)>,
    c: Seq<(ClientId, Client)>,
    m1: Seq<Mail>,
    m2: Seq<Mail>,
)
    requires
        delivered(a, b, m1),
        delivered(b, c, m2),
    ensures
        delivered(a, c, m1 + m2),
{
    assert forall|i: int| 0 <= i < a.len() implies {
        &&& #[trigger] c[i].0 == a[i].0
        &&& same_but_output(a[i].1, c[i].1)
        &&& c[i].1.output@ == a[i].1.output@ + mail_bytes(m1 + m2, a[i].0, a[i].1)
    } by {
        let _ = b[i];
        lemma_mail_bytes_concat(m1, m2, a[i].0, a[i].1);
        lemma_mail_bytes_same_state(m2, a[i].0, a[i].1, b[i].1);
        assert(c[i].1.output@ =~= a[i].1.output@ + mail_bytes(m1 + m2, a[i].0, a[i].1));
    }
}

/// Queuing nothing changes nothing.
pub proof fn lemma_delivered_nothing(a: Seq<(ClientId, Client)>)
    ensures
        delivered(a, a, Seq::empty()),
{
    assert forall|i: int| 0 <= i < a.len() implies #[trigger] a[i].1.output@ == a[i].1.output@
        + mail_bytes(Seq::empty(), a[i].0, a[i].1) by {
        assert(a[i].1.output@ =~= a[i].1.output@ + Seq::<u8>::empty());
    }
}

/// The client playing player `player_id`: the first one, in order, whose
/// player it is.
pub open spec fn token_of(clients: Seq<(ClientId, Client)>, player_id: usize) -> Option<ClientId>
    decreases clients.len(),
{
    if clients.len() == 0 {
        None
    } else if clients[0].1.player_id == Some(player_id) {
        Some(clients[0].0)
    } else {
        token_of(clients.drop_first(), player_id)
    }
}

/// Position of the first player called `id`.
pub open spec fn player_position(players: Seq<Player>, id: usize) -> Option<int>
    decreases players.len(),
{
    if players.len() == 0 {
        None
    } else if players[0].id == id {
        Some(0)
    } else {
        match player_position(players.drop_first(), id) {
            Some(i) => Some(i + 1),
            None => None,
        }
    }
}

/// Position of the first client called `id`.
pub open spec fn client_position(clients: Seq<(ClientId, Client)>, id: ClientId) -> Option<int>
    decreases clients.len(),
{
    if clients.len() == 0 {
        None
    } else if clients[0].0 == id {
        Some(0)
    } else {
        match client_position(clients.drop_first(), id) {
            Some(i) => Some(i + 1),
            None => None,
        }
    }
}

/// The identifiers of `ids` increase strictly.
pub open spec fn strictly_increasing(ids: Seq<usize>) -> bool {
    forall|i: int, j: int| 0 <= i < j < ids.len() ==> ids[i] < ids[j]
}

/// The state of a game.
pub struct GameState {
    /// Connected clients, by increasing identifier.
    pub clients: Vec<(ClientId, Client)>,
    /// Players, by increasing identifier.
    pub players: Vec<Player>,
    /// Eggs, by increasing identifier.
    pub eggs: Vec<Egg>,
    pub teams: Vec<Team>,
    pub map: GameMap,
    /// Time units per second.
    pub frequency: usize,
    pub next_client_id: usize,
    pub next_player_id: usize,
    pub next_egg_id: usize,
    pub next_incantation_id: usize,
    /// When the map's resources are next refilled, in nanoseconds of game time.
    pub next_resource_spawn: u64,
    /// Incantations under way, by increasing identifier.
    pub incantations: Vec<Incantation>,
    /// The team that won, once one did.
    pub winner: Option<String>,
}

impl GameState {
    /// The identifiers of the clients, in order.
    pub open spec fn client_ids(self) -> Seq<usize> {
        self.clients@.map_values(|c: (ClientId, Client)| c.0.0)
    }

    /// The identifiers of the players, in order.
    pub open spec fn player_ids(self) -> Seq<usize> {
        self.players@.map_values(|p: Player| p.id)
    }

    /// The identifiers of the eggs, in order.
    pub open spec fn egg_ids(self) -> Seq<usize> {
        self.eggs@.map_values(|e: Egg| e.id)
    }

    /// The identifiers of the incantations, in order.
    pub open spec fn incantation_ids(self) -> Seq<usize> {
        self.incantations@.map_values(|i: Incantation| i.spec_id())
    }

    /// The state is consistent: identifiers increase and stay below the next
    /// ones to hand out, everything stands on the map, and the time unit is
    /// long enough for the map's refill to take some time.
    pub open spec fn wf(self) -> bool {
        &&& self.map.wf()
        &&& self.map.spec_width() <= isize::MAX
        &&& self.map.spec_height() <= isize::MAX
        &&& 1 <= self.frequency
        &&& duration_nanos(RESOURCE_RESPAWN_TIME_UNITS as nat, self.frequency as nat) > 0
        &&& strictly_increasing(self.client_ids())
        &&& strictly_increasing(self.player_ids())
        &&& strictly_increasing(self.egg_ids())
        &&& strictly_increasing(self.incantation_ids())
        &&& forall|i: int|
            0 <= i < self.clients@.len() ==> (#[trigger] self.clients@[i]).0.0
                < self.next_client_id && self.clients@[i].1.queue@.len() <= MAX_PENDING_COMMANDS
        &&& forall|i: int|
            0 <= i < self.players@.len() ==> (#[trigger] self.players@[i]).id < self.next_player_id
                && self.map.contains(self.players@[i].x as int, self.players@[i].y as int)
        &&& forall|i: int|
            0 <= i < self.eggs@.len() ==> (#[trigger] self.eggs@[i]).id < self.next_egg_id
                && self.map.contains(self.eggs@[i].x as int, self.eggs@[i].y as int)
        &&& forall|i: int|
            0 <= i < self.incantations@.len() ==> (#[trigger] self.incantations@[i]).spec_id()
                < self.next_incantation_id && self.incantations@[i].spec_participants().no_duplicates()
    }

    /// Everything but the clients is as in `before`.
    pub open spec fn same_world(self, before: GameState) -> bool {
        &&& self.players@ == before.players@
        &&& self.eggs@ == before.eggs@
        &&& self.teams@ == before.teams@
        &&& self.map == before.map
        &&& self.frequency == before.frequency
        &&& self.next_client_id == before.next_client_id
        &&& self.next_player_id == before.next_player_id
        &&& self.next_egg_id == before.next_egg_id
        &&& self.next_incantation_id == before.next_incantation_id
        &&& self.next_resource_spawn == before.next_resource_spawn
        &&& self.incantations@ == before.incantations@
        &&& self.winner == before.winner
    }

    /// Everything but the clients and the players is as in `before`.
    pub open spec fn same_but_players(self, before: GameState) -> bool {
        &&& self.eggs@ == before.eggs@
        &&& self.teams@ == before.teams@
        &&& self.map == before.map
        &&& self.frequency == before.frequency
        &&& self.next_client_id == before.next_client_id
        &&& self.next_player_id == before.next_player_id
        &&& self.next_egg_id == before.next_egg_id
        &&& self.next_incantation_id == before.next_incantation_id
        &&& self.next_resource_spawn == before.next_resource_spawn
        &&& self.incantations@ == before.incantations@
        &&& self.winner == before.winner
    }

    /// The player at `i` is now `player`, which keeps its identifier and stands on
    /// the map; nothing else about the world changed.
    pub open spec fn replaced_player(self, before: GameState, i: int, player: Player) -> bool {
        &&& 0 <= i < before.players@.len()
        &&& self.players@ == before.players@.update(i, player)
        &&& player.id == before.players@[i].id
        &&& self.same_but_players(before)
    }

    /// Nothing changed but that `mail` was queued.
    pub open spec fn only_sent(self, before: GameState, mail: Seq<Mail>) -> bool {
        &&& delivered(before.clients@, self.clients@, mail)
        &&& self.same_world(before)
    }

    /// Hands out a new client identifier.
    pub fn allocate_client_id(&mut self) -> (client_id: ClientId)
        requires
            old(self).next_client_id < usize::MAX,
        ensures
            client_id.0 == old(self).next_client_id,
            *final(self) == (GameState { next_client_id: (old(self).next_client_id + 1) as usize, ..*old(self) }),
    {
        let client_id = ClientId(self.next_client_id);
        self.next_client_id = self.next_client_id + 1;
        client_id
    }

    /// Position of the client called `client_id`.
    pub fn find_client(&self, client_id: ClientId) -> (position: Option<usize>)
        ensures
            position matches Some(i) ==> client_position(self.clients@, client_id) == Some(i as int)
                && i < self.clients@.len(),
            position is None ==> client_position(self.clients@, client_id) is None,
    {
        let mut i: usize = 0;
        assert(self.clients@.skip(0) =~= self.clients@);
        while i < self.clients.len()
            invariant
                i <= self.clients@.len(),
                client_position(self.clients@, client_id) == match client_position(
                    self.clients@.skip(i as int),
                    client_id,
                ) {
                    Some(k) => Some(k + i),
                    None => None,
                },
            decreases self.clients@.len() - i,
        {
            if self.clients[i].0 == client_id {
                return Some(i);
            }
            assert(self.clients@.skip(i as int).drop_first() =~= self.clients@.skip(i + 1));
            i = i + 1;
        }
        None
    }
    /// Position of the first player called `player_id`.
    pub fn find_player(&self, player_id: usize) -> (position: Option<usize>)
        ensures
            position matches Some(i) ==> player_position(self.players@, player_id) == Some(i as int)
                && i < self.players@.len() && self.players@[i as int].id == player_id,
            position is None ==> player_position(self.players@, player_id) is None,
    {
        let mut i: usize = 0;
        assert(self.players@.skip(0) =~= self.players@);
        while i < self.players.len()
            invariant
                i <= self.players@.len(),
                player_position(self.players@, player_id) == match player_position(
                    self.players@.skip(i as int),
                    player_id,
                ) {
                    Some(k) => Some(k + i),
                    None => None,
                },
            decreases self.players@.len() - i,
        {
            if self.players[i].id == player_id {
                return Some(i);
            }
            assert(self.players@.skip(i as int).drop_first() =~= self.players@.skip(i + 1));
            i = i + 1;
        }
        None
    }

    /// The client playing player `player_id`.
    pub fn player_token(&self, player_id: usize) -> (client_id: Option<ClientId>)
        ensures
            client_id == token_of(self.clients@, player_id),
    {
        let mut i: usize = 0;
        assert(self.clients@.skip(0) =~= self.clients@);
        while i < self.clients.len()
            invariant
                i <= self.clients@.len(),
                token_of(self.clients@, player_id) == token_of(
                    self.clients@.skip(i as int),
                    player_id,
                ),
            decreases self.clients@.len() - i,
        {
            if self.clients[i].1.player_id == Some(player_id) {
                return Some(self.clients[i].0);
            }
            assert(self.clients@.skip(i as int).drop_first() =~= self.clients@.skip(i + 1));
            i = i + 1;
        }
        None
    }

    /// Player `player_id` exists and is frozen by an incantation.
    pub fn is_player_frozen(&self, player_id: usize) -> (frozen: bool)
        ensures
            frozen == match player_position(self.players@, player_id) {
                Some(i) => self.players@[i].frozen_by.is_some(),
                None => false,
            },
    {
        match self.find_player(player_id) {
            Some(i) => self.players[i].frozen_by.is_some(),
            None => false,
        }
    }

    /// How long `time_units` last at the game's frequency, in nanoseconds.
    pub fn duration(&self, time_units: u64) -> (nanos: u64)
        requires
            1 <= self.frequency,
            duration_nanos(time_units as nat, self.frequency as nat) <= u64::MAX,
        ensures
            nanos == duration_nanos(time_units as nat, self.frequency as nat),
    {
        duration_for(time_units, self.frequency)
    }

    /// Queues `text` to the client `client_id`, if it is connected.
    pub fn queue_to_client(&mut self, client_id: ClientId, text: &str)
        requires
            strictly_increasing(old(self).client_ids()),
        ensures
            final(self).only_sent(*old(self), seq![to_client(client_id, text@)]),
    {
        let ghost mail = seq![to_client(client_id, text@)];
        match self.find_client(client_id) {
            Some(i) => {
                let ghost before = self.clients@;
                self.clients[i].1.queue_text(text);
                assert forall|j: int| 0 <= j < before.len() implies {
                    &&& #[trigger] self.clients@[j].0 == before[j].0
                    &&& same_but_output(before[j].1, self.clients@[j].1)
                    &&& self.clients@[j].1.output@ == before[j].1.output@ + mail_bytes(
                        mail,
                        before[j].0,
                        before[j].1,
                    )
                } by {
                    reveal_with_fuel(mail_bytes, 2);
                    assert(mail.drop_last() =~= Seq::<Mail>::empty());
                    if j != i {
                        lemma_client_position_is(before, client_id, i as int);
                        lemma_client_ids_distinct(before, i as int, j);
                        assert(self.clients@[j] == before[j]);
                        assert(self.clients@[j].1.output@ =~= before[j].1.output@ + Seq::<
                            u8,
                        >::empty());
                    } else {
                        lemma_client_position_is(before, client_id, i as int);
                        assert(mail_bytes(mail, before[j].0, before[j].1) =~= encode_utf8(text@));
                        assert(self.clients@[j].0 == before[j].0);
                        assert(same_but_output(before[j].1, self.clients@[j].1));
                        assert(self.clients@[j].1.output@ == before[j].1.output@ + encode_utf8(text@));
                    }
                }
                assert(delivered(before, self.clients@, mail));
                assert(self.same_world(*old(self)));
            },
            None => {
                proof {
                    let before = self.clients@;
                    assert forall|j: int| 0 <= j < before.len() implies before[j].0 != client_id by {
                        lemma_client_position_none(before, client_id, j);
                    }
                    reveal_with_fuel(mail_bytes, 2);
                    assert(mail.drop_last() =~= Seq::<Mail>::empty());
                    assert forall|j: int| 0 <= j < before.len() implies #[trigger] before[j].1.output@
                        == before[j].1.output@ + mail_bytes(mail, before[j].0, before[j].1) by {
                        assert(before[j].1.output@ =~= before[j].1.output@ + Seq::<u8>::empty());
                    }
                    assert(delivered(before, self.clients@, mail));
                }
            },
        }
    }

    /// Queues `text` to every graphical client.
    pub fn broadcast_to_guis(&mut self, text: &str)
        ensures
            final(self).only_sent(*old(self), seq![to_guis(text@)]),
    {
        let ghost mail = seq![to_guis(text@)];
        let ghost before = self.clients@;
        let mut i: usize = 0;
        proof {
            reveal_with_fuel(mail_bytes, 2);
            assert(mail.drop_last() =~= Seq::<Mail>::empty());
        }
        while i < self.clients.len()
            invariant
                0 <= i <= self.clients@.len(),
                self.clients@.len() == before.len(),
                self.same_world(*old(self)),
                before == old(self).clients@,
                mail == seq![to_guis(text@)],
                mail.drop_last() =~= Seq::<Mail>::empty(),
                forall|j: int|
                    #![trigger self.clients@[j]]
                    0 <= j < before.len() ==> {
                        &&& self.clients@[j].0 == before[j].0
                        &&& same_but_output(before[j].1, self.clients@[j].1)
                        &&& j < i ==> self.clients@[j].1.output@ == before[j].1.output@
                            + mail_bytes(mail, before[j].0, before[j].1)
                        &&& j >= i ==> self.clients@[j] == before[j]
                    },
            decreases before.len() - i,
        {
            proof {
                reveal_with_fuel(mail_bytes, 2);
            }
            if self.clients[i].1.state == ClientState::Gui {
                self.clients[i].1.queue_text(text);
            } else {
                assert(self.clients@[i as int].1.output@ =~= before[i as int].1.output@
                    + Seq::<u8>::empty());
            }
            i = i + 1;
        }
    }
}

/// Replacing a player by one with the same identifier standing on the map,
/// and queuing messages, keeps the state consistent.
pub proof fn lemma_wf_replaced_player(before: GameState, after: GameState, i: int, player: Player, mail: Seq<Mail>)
    requires
        before.wf(),
        after.replaced_player(before, i, player),
        before.map.contains(player.x as int, player.y as int),
        delivered(before.clients@, after.clients@, mail),
    ensures
        after.wf(),
{
    assert(after.player_ids() =~= before.player_ids()) by {
        assert forall|k: int| 0 <= k < after.players@.len() implies #[trigger] after.player_ids()[k]
            == before.player_ids()[k] by {
            if k == i {
            } else {
            }
        }
    }
    assert(after.client_ids() =~= before.client_ids()) by {
        assert forall|k: int| 0 <= k < after.clients@.len() implies #[trigger] after.client_ids()[k]
            == before.client_ids()[k] by {
            let _ = after.clients@[k];
        }
    }
    assert forall|k: int| 0 <= k < after.clients@.len() implies (#[trigger] after.clients@[k]).0.0
        < after.next_client_id && after.clients@[k].1.queue@.len() <= MAX_PENDING_COMMANDS by {
        let _ = before.clients@[k];
    }
    assert forall|k: int| 0 <= k < after.players@.len() implies (#[trigger] after.players@[k]).id
        < after.next_player_id && after.map.contains(after.players@[k].x as int, after.players@[k].y as int) by {
        let _ = before.players@[k];
    }
}

/// Queuing messages keeps the state consistent.
pub proof fn lemma_wf_only_sent(before: GameState, after: GameState, mail: Seq<Mail>)
    requires
        before.wf(),
        after.only_sent(before, mail),
    ensures
        after.wf(),
{
    assert(after.client_ids() =~= before.client_ids()) by {
        assert forall|k: int| 0 <= k < after.clients@.len() implies #[trigger] after.client_ids()[k]
            == before.client_ids()[k] by {
            let _ = after.clients@[k];
        }
    }
    assert forall|k: int| 0 <= k < after.clients@.len() implies (#[trigger] after.clients@[k]).0.0
        < after.next_client_id && after.clients@[k].1.queue@.len() <= MAX_PENDING_COMMANDS by {
        let _ = before.clients@[k];
    }
}

/// Queuing messages does not change who plays which player.
pub proof fn lemma_token_of_same_ids(
    before: Seq<(ClientId, Client)>,
    after: Seq<(ClientId, Client)>,
    player_id: usize,
)
    requires
        after.len() == before.len(),
        forall|i: int|
            #![trigger after[i]]
            0 <= i < before.len() ==> after[i].0 == before[i].0 && after[i].1.player_id
                == before[i].1.player_id,
    ensures
        token_of(after, player_id) == token_of(before, player_id),
    decreases before.len(),
{
    if before.len() > 0 {
        let _ = after[0];
        assert forall|i: int| 0 <= i < before.len() - 1 implies #[trigger] after.drop_first()[i].0
            == before.drop_first()[i].0 && after.drop_first()[i].1.player_id
            == before.drop_first()[i].1.player_id by {
            let _ = after[i + 1];
        }
        lemma_token_of_same_ids(before.drop_first(), after.drop_first(), player_id);
    }
}

/// `player_position` finds a player with the identifier asked for.
pub proof fn lemma_player_position_is(players: Seq<Player>, id: usize, i: int)
    requires
        player_position(players, id) == Some(i),
    ensures
        0 <= i < players.len(),
        players[i].id == id,
    decreases players.len(),
{
    if players.len() > 0 && players[0].id != id {
        lemma_player_position_is(players.drop_first(), id, i - 1);
    }
}

/// When `player_position` finds nothing, no player has that identifier.
pub proof fn lemma_player_position_none(players: Seq<Player>, id: usize, j: int)
    requires
        player_position(players, id) is None,
        0 <= j < players.len(),
    ensures
        players[j].id != id,
    decreases players.len(),
{
    if j > 0 {
        lemma_player_position_none(players.drop_first(), id, j - 1);
    }
}

/// With strictly increasing identifiers, the player at `i` is the only
/// one with its identifier, and `player_position` finds it.
pub proof fn lemma_player_unique(players: Seq<Player>, i: int)
    requires
        strictly_increasing(players.map_values(|p: Player| p.id)),
        0 <= i < players.len(),
    ensures
        player_position(players, players[i].id) == Some(i),
        forall|j: int| 0 <= j < players.len() && j != i ==> #[trigger] players[j].id != players[i].id,
    decreases players.len(),
{
    let ids = players.map_values(|p: Player| p.id);
    assert forall|j: int| 0 <= j < players.len() && j != i implies #[trigger] players[j].id != players[i].id by {
        assert(ids[j] == players[j].id);
        assert(ids[i] == players[i].id);
    }
    if i > 0 {
        let rest = players.drop_first();
        assert(rest.map_values(|p: Player| p.id) =~= ids.drop_first());
        lemma_player_unique(rest, i - 1);
        assert(players[0].id != players[i].id);
    }
}

/// Clients with strictly increasing identifiers have distinct identifiers.
pub proof fn lemma_client_ids_distinct(clients: Seq<(ClientId, Client)>, i: int, j: int)
    requires
        strictly_increasing(clients.map_values(|c: (ClientId, Client)| c.0.0)),
        0 <= i < clients.len(),
        0 <= j < clients.len(),
        i != j,
    ensures
        clients[i].0 != clients[j].0,
{
    let ids = clients.map_values(|c: (ClientId, Client)| c.0.0);
    assert(ids[i] == clients[i].0.0);
    assert(ids[j] == clients[j].0.0);
}

/// `client_position` finds the entry it returns.
pub proof fn lemma_client_position_is(clients: Seq<(ClientId, Client)>, id: ClientId, i: int)
    requires
        client_position(clients, id) == Some(i),
    ensures
        0 <= i < clients.len(),
        clients[i].0 == id,
    decreases clients.len(),
{
    if clients.len() > 0 && clients[0].0 != id {
        lemma_client_position_is(clients.drop_first(), id, i - 1);
    }
}

/// No entry has an identifier that `client_position` does not find.
pub proof fn lemma_client_position_none(clients: Seq<(ClientId, Client)>, id: ClientId, j: int)
    requires
        client_position(clients, id) is None,
        0 <= j < clients.len(),
    ensures
        clients[j].0 != id,
    decreases clients.len(),
{
    if j > 0 {
        lemma_client_position_none(clients.drop_first(), id, j - 1);
    }
}

/// A duration is no longer than its time units at one unit per second,
/// so the durations of the game's rules fit in 64 bits.
pub proof fn lemma_duration_bound(time_units: nat, frequency: nat)
    requires
        1 <= frequency,
    ensures
        duration_nanos(time_units, frequency) <= time_units * 1000000000,
        time_units <= crate::constants::INCANTATION_TIME_UNITS ==> duration_nanos(time_units, frequency) <= u64::MAX,
{
    if time_units > 0 {
        let scaled = time_units * 1000000000;
        let whole = scaled / frequency;
        let rest = scaled % frequency;
        vstd::arithmetic::div_mod::lemma_fundamental_div_mod(scaled as int, frequency as int);
        if frequency == 1 {
            assert(rest == 0);
            assert(whole == scaled);
        } else {
            assert(whole * 2 <= scaled) by (nonlinear_arith)
                requires
                    scaled == frequency * whole + rest,
                    0 <= rest,
                    2 <= frequency,
                    0 <= whole,
            ;
        }
    }
}

} // verus!

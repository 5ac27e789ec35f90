//! What happens to players over time: they eat, starve and die, leave with
//! their client; and when a team has won.
use vstd::prelude::*;

use vstd::utf8::encode_utf8;

use crate::client::{Client, ClientId};
use crate::constants::{
    DEAD_RESPONSE, FOOD_LIFETIME_TIME_UNITS, MAX_PENDING_COMMANDS, MAX_PLAYER_LEVEL, WINNING_PLAYER_COUNT,
};
use crate::elevation::{
    cancellation_mail, cleared_by_all, involving, not_involving, released_by_all,
};
use crate::entities::{Player, Team};
use crate::game::{
    delivered, lemma_client_ids_distinct, lemma_client_position_is, lemma_delivered_chain, lemma_delivered_nothing,
    lemma_mail_bytes_concat, lemma_mail_bytes_same_state, lemma_player_position_is,
    lemma_token_of_same_ids, lemma_wf_only_sent, lemma_wf_replaced_player, mail_bytes, player_position, to_client, to_guis,
    token_of, GameState, Mail,
};
use crate::gui_messages::{pdi, pin, pin_text, seg, seg_text, tagged_id_text};
use crate::timing::duration_nanos;
use crate::world::{GameMap, Resource};
use crate::resources::{placed_tiles, refill_missing_resources, target_units, units_added};
use crate::constants::RESOURCE_RESPAWN_TIME_UNITS;
use crate::gui_messages::{bct, bct_for};
use crate::text::append;
use crate::incantation::{clients_changed, to_player_mail};

verus! {

/// Number of players of team `team` at the highest level.
pub open spec fn elevated_count(players: Seq<Player>, team: Seq<char>) -> nat
    decreases players.len(),
{
    if players.len() == 0 {
        0
    } else {
        elevated_count(players.drop_last(), team) + if players.last().team_name@ == team
            && players.last().level == MAX_PLAYER_LEVEL {
            1nat
        } else {
            0nat
        }
    }
}

/// The first team, in order, with enough players at the highest level.
pub open spec fn winning_team(teams: Seq<Team>, players: Seq<Player>) -> Option<int>
    decreases teams.len(),
{
    if teams.len() == 0 {
        None
    } else if elevated_count(players, teams[0].name@) >= WINNING_PLAYER_COUNT {
        Some(0)
    } else {
        match winning_team(teams.drop_first(), players) {
            Some(i) => Some(i + 1),
            None => None,
        }
    }
}

/// The winner once the victory is checked with these teams and players:
/// a game already won keeps its winner; otherwise the first winning team
/// wins, if any.
pub open spec fn winner_after(winner: Option<String>, teams: Seq<Team>, players: Seq<Player>) -> Option<String> {
    match (winner, winning_team(teams, players)) {
        (None, Some(t)) => Some(teams[t].name),
        _ => winner,
    }
}

/// What checking the victory tells the graphical clients: `seg` with the
/// new winner's name, if there is one.
pub open spec fn victory_mail(winner: Option<String>, teams: Seq<Team>, players: Seq<Player>) -> Seq<Mail> {
    match (winner, winning_team(teams, players)) {
        (None, Some(t)) => seq![to_guis(seg_text(teams[t].name@))],
        _ => Seq::empty(),
    }
}

/// `after` is `before` once the victory was checked: only the winner and
/// the graphical clients' output may change.
pub open spec fn victory_checked(before: GameState, after: GameState) -> bool {
    &&& after.winner == winner_after(before.winner, before.teams@, before.players@)
    &&& (GameState { winner: before.winner, ..after }).only_sent(
        before,
        victory_mail(before.winner, before.teams@, before.players@),
    )
}

/// A game once won keeps its winner, and checking the victory again, with
/// the same teams and players, changes nothing and tells nothing more.
pub proof fn lemma_victory_settled(winner: Option<String>, teams: Seq<Team>, players: Seq<Player>)
    ensures
        winner is Some ==> winner_after(winner, teams, players) == winner,
        winner_after(winner_after(winner, teams, players), teams, players) == winner_after(winner, teams, players),
        victory_mail(winner_after(winner, teams, players), teams, players) == Seq::<Mail>::empty(),
{
}

impl GameState {
    /// Number of players of team `team` at the highest level.
    fn count_elevated(&self, team: &String) -> (count: usize)
        ensures
            count == elevated_count(self.players@, team@),
    {
        let mut count: usize = 0;
        let mut j: usize = 0;
        while j < self.players.len()
            invariant
                j <= self.players@.len(),
                count == elevated_count(self.players@.take(j as int), team@),
                count <= j,
            decreases self.players@.len() - j,
        {
            assert(self.players@.take(j + 1).drop_last() =~= self.players@.take(j as int));
            if self.players[j].team_name == *team && self.players[j].level == MAX_PLAYER_LEVEL {
                count = count + 1;
            }
            j = j + 1;
        }
        assert(self.players@.take(j as int) =~= self.players@);
        count
    }

    /// Ends the game when a team has enough players at the highest level.
    pub fn check_victory(&mut self)
        requires
            old(self).wf(),
        ensures
            final(self).wf(),
            victory_checked(*old(self), *final(self)),
    {
        proof {
            lemma_delivered_nothing(self.clients@);
        }
        if self.winner.is_some() {
            return;
        }
        let mut t: usize = 0;
        assert(self.teams@.skip(0) =~= self.teams@);
        while t < self.teams.len()
            invariant
                t <= self.teams@.len(),
                self.winner is None,
                *self == *old(self),
                old(self).wf(),
                winning_team(self.teams@, self.players@) == match winning_team(
                    self.teams@.skip(t as int),
                    self.players@,
                ) {
                    Some(k) => Some(k + t),
                    None => None,
                },
            decreases self.teams@.len() - t,
        {
            let count = self.count_elevated(&self.teams[t].name);
            if count >= WINNING_PLAYER_COUNT {
                let name = self.teams[t].name.clone();
                let message = seg(name.as_str());
                let ghost before = *self;
                self.broadcast_to_guis(message.as_str());
                proof {
                    lemma_wf_only_sent(before, *self, seq![to_guis(message@)]);
                }
                self.winner = Some(name);
                return;
            }
            assert(self.teams@.skip(t as int).drop_first() =~= self.teams@.skip(t + 1));
            t = t + 1;
        }
        assert(self.teams@.skip(t as int) =~= Seq::<Team>::empty());
    }
}


/// What happens to the client of a player who died: it is no longer
/// anyone's, its commands are dropped, and it closes once its output is
/// sent.
pub open spec fn dropped(before: Client, after: Client) -> bool {
    &&& after.input == before.input
    &&& after.output_offset == before.output_offset
    &&& after.state == before.state
    &&& after.team_name == before.team_name
    &&& after.player_id is None
    &&& after.queue@.len() == 0
    &&& after.active is None
    &&& after.close_after_flush
}

/// `after` is `before` once player `player_id` died: its incantations are
/// cancelled; if it was there, it is removed, its client is told `dead`
/// and dropped, and the graphical clients see `pdi`.
pub open spec fn killed(before: GameState, after: GameState, player_id: usize) -> bool {
    let gone = involving(before.incantations@, player_id);
    let released = released_by_all(before.players@, gone);
    let cancel_mail = cancellation_mail(before.clients@, gone, player_id);
    &&& after.incantations@ == not_involving(before.incantations@, player_id)
    &&& after.eggs@ == before.eggs@
    &&& after.teams@ == before.teams@
    &&& after.map == before.map
    &&& after.frequency == before.frequency
    &&& after.next_client_id == before.next_client_id
    &&& after.next_player_id == before.next_player_id
    &&& after.next_egg_id == before.next_egg_id
    &&& after.next_incantation_id == before.next_incantation_id
    &&& after.next_resource_spawn == before.next_resource_spawn
    &&& after.winner == before.winner
    &&& match player_position(before.players@, player_id) {
        None => {
            &&& after.players@ == released
            &&& clients_changed(
                before.clients@,
                after.clients@,
                cancel_mail,
                |j: int| cleared_by_all(before.clients@, before.clients@[j].0, before.clients@[j].1.active, gone),
            )
        },
        Some(i) => {
            let token = token_of(before.clients@, player_id);
            let mail = cancel_mail + to_player_mail(before.clients@, player_id, DEAD_RESPONSE@) + seq![
                to_guis(tagged_id_text("pdi"@, player_id as nat)),
            ];
            &&& after.players@ == released.remove(i)
            &&& after.clients@.len() == before.clients@.len()
            &&& forall|j: int|
                #![trigger after.clients@[j]]
                0 <= j < before.clients@.len() ==> {
                    let (cid, c) = before.clients@[j];
                    let a = after.clients@[j].1;
                    &&& after.clients@[j].0 == cid
                    &&& a.output@ == c.output@ + mail_bytes(mail, cid, c)
                    &&& if token == Some(cid) {
                        dropped(c, a)
                    } else {
                        &&& a.input == c.input
                        &&& a.output_offset == c.output_offset
                        &&& a.state == c.state
                        &&& a.team_name == c.team_name
                        &&& a.player_id == c.player_id
                        &&& a.queue == c.queue
                        &&& a.close_after_flush == c.close_after_flush
                        &&& a.active == cleared_by_all(before.clients@, cid, c.active, gone)
                    }
                }
        },
    }
}

/// The bytes one message to one client adds to each client's output.
pub proof fn lemma_mail_bytes_one(to: ClientId, text: Seq<char>, id: ClientId, client: Client)
    ensures
        mail_bytes(seq![to_client(to, text)], id, client) == if to == id {
            encode_utf8(text)
        } else {
            Seq::empty()
        },
{
    reveal_with_fuel(mail_bytes, 2);
    assert(seq![to_client(to, text)].drop_last() =~= Seq::<Mail>::empty());
    assert(Seq::<u8>::empty() + encode_utf8(text) =~= encode_utf8(text));
}

/// Players with the same identifiers, in the same order, are found at the
/// same positions.
proof fn lemma_player_position_same(a: Seq<Player>, b: Seq<Player>, id: usize)
    requires
        a.len() == b.len(),
        forall|j: int| 0 <= j < a.len() ==> (#[trigger] a[j]).id == b[j].id,
    ensures
        player_position(a, id) == player_position(b, id),
    decreases a.len(),
{
    if a.len() > 0 {
        assert(a[0].id == b[0].id);
        assert forall|j: int| 0 <= j < a.len() - 1 implies (#[trigger] a.drop_first()[j]).id == b.drop_first()[j].id by {
            assert(a[j + 1].id == b[j + 1].id);
        }
        lemma_player_position_same(a.drop_first(), b.drop_first(), id);
    }
}

/// `token_of` names a client of the list.
proof fn lemma_token_of_present(clients: Seq<(ClientId, Client)>, player_id: usize)
    ensures
        token_of(clients, player_id) matches Some(t) ==> exists|j: int| 0 <= j < clients.len() && clients[j].0 == t
            && clients[j].1.player_id == Some(player_id),
    decreases clients.len(),
{
    if clients.len() > 0 {
        if clients[0].1.player_id != Some(player_id) {
            lemma_token_of_present(clients.drop_first(), player_id);
            if token_of(clients, player_id) is Some {
                let t = token_of(clients, player_id)->0;
                let j = choose|j: int| 0 <= j < clients.drop_first().len() && clients.drop_first()[j].0 == t
                    && clients.drop_first()[j].1.player_id == Some(player_id);
                assert(clients[j + 1] == clients.drop_first()[j]);
            }
        }
    }
}

impl GameState {
    /// Removes the player at position `i`.
    fn remove_player_at(&mut self, i: usize)
        requires
            old(self).wf(),
            i < old(self).players@.len(),
        ensures
            final(self).wf(),
            final(self).players@ == old(self).players@.remove(i as int),
            *final(self) == (GameState { players: final(self).players, ..*old(self) }),
    {
        let ghost before = *self;
        self.players.remove(i);
        proof {
            let a = self.player_ids();
            let b = before.player_ids();
            assert forall|j: int, k: int| 0 <= j < k < a.len() implies a[j] < a[k] by {
                let jj = if j < i { j } else { j + 1 };
                let kk = if k < i { k } else { k + 1 };
                assert(self.players@[j] == before.players@[jj]);
                assert(self.players@[k] == before.players@[kk]);
                assert(b[jj] < b[kk]);
            }
            assert forall|j: int| 0 <= j < self.players@.len() implies (#[trigger] self.players@[j]).id
                < self.next_player_id && self.map.contains(self.players@[j].x as int, self.players@[j].y as int) by {
                let jj = if j < i { j } else { j + 1 };
                assert(self.players@[j] == before.players@[jj]);
            }
        }
    }

    /// Player `player_id` dies.
    pub fn kill_player(&mut self, player_id: usize)
        requires
            old(self).wf(),
        ensures
            final(self).wf(),
            killed(*old(self), *final(self), player_id),
    {
        let ghost start = *self;
        self.cancel_incantations_for_player(player_id);
        let ghost s1 = *self;
        proof {
            assert(s1.player_ids().len() == start.player_ids().len());
            assert forall|j: int| 0 <= j < s1.players@.len() implies (#[trigger] s1.players@[j]).id
                == start.players@[j].id by {
                assert(s1.player_ids()[j] == start.player_ids()[j]);
            }
            lemma_player_position_same(s1.players@, start.players@, player_id);
        }
        let i = match self.find_player(player_id) {
            Some(i) => i,
            None => return,
        };
        self.remove_player_at(i);
        let ghost s2 = *self;
        let ghost token = token_of(s1.clients@, player_id);
        let ghost dead_mail = to_player_mail(s1.clients@, player_id, DEAD_RESPONSE@);
        proof {
            assert forall|pid: usize| #[trigger] token_of(start.clients@, pid) == token_of(s1.clients@, pid) by {
                lemma_token_of_same_ids(start.clients@, s1.clients@, pid);
            }
        }
        match self.player_token(player_id) {
            Some(client_id) => {
                proof {
                    lemma_token_of_present(s1.clients@, player_id);
                }
                let c = match self.find_client(client_id) {
                    Some(c) => c,
                    None => {
                        proof {
                            let j = choose|j: int| 0 <= j < s1.clients@.len() && s1.clients@[j].0 == client_id
                                && s1.clients@[j].1.player_id == Some(player_id);
                            crate::game::lemma_client_position_none(s1.clients@, client_id, j);
                        }
                        return;
                    },
                };
                proof {
                    lemma_client_position_is(s1.clients@, client_id, c as int);
                }
                self.clients[c].1.queue_text(DEAD_RESPONSE);
                self.clients[c].1.player_id = None;
                self.clients[c].1.clear_commands();
                self.clients[c].1.close_after_flush = true;
                proof {
                    assert forall|j: int| 0 <= j < s1.clients@.len() && j != c implies s1.clients@[j].0 != client_id by {
                        assert(s1.clients@.map_values(|x: (ClientId, Client)| x.0.0) =~= s1.client_ids());
                        lemma_client_ids_distinct(s1.clients@, c as int, j);
                    }
                }
            },
            None => {},
        }
        let ghost s3 = *self;
        proof {
            assert forall|j: int| 0 <= j < s1.clients@.len() implies {
                let (cid, cl) = s1.clients@[j];
                let a = (#[trigger] s3.clients@[j]).1;
                &&& s3.clients@[j].0 == cid
                &&& a.output@ == cl.output@ + mail_bytes(dead_mail, cid, cl)
                &&& if token == Some(cid) {
                    dropped(cl, a)
                } else {
                    a == cl
                }
            } by {
                let (cid, cl) = s1.clients@[j];
                match token {
                    Some(t) => {
                        lemma_mail_bytes_one(t, DEAD_RESPONSE@, cid, cl);
                        if t != cid {
                            assert(s3.clients@[j].1.output@ =~= cl.output@ + Seq::<u8>::empty());
                        }
                    },
                    None => {
                        assert(dead_mail =~= Seq::<Mail>::empty());
                        assert(s3.clients@[j].1.output@ =~= cl.output@ + Seq::<u8>::empty());
                    },
                }
            }
            assert(s3.client_ids() =~= s1.client_ids()) by {
                assert forall|j: int| 0 <= j < s3.clients@.len() implies #[trigger] s3.client_ids()[j]
                    == s1.client_ids()[j] by {
                    let _ = s3.clients@[j];
                }
            }
            assert forall|j: int| 0 <= j < s3.clients@.len() implies (#[trigger] s3.clients@[j]).0.0
                < s3.next_client_id && s3.clients@[j].1.queue@.len() <= MAX_PENDING_COMMANDS by {
                let _ = s1.clients@[j];
            }
        }
        let message = pdi(player_id);
        self.broadcast_to_guis(message.as_str());
        proof {
            lemma_wf_only_sent(s3, *self, seq![to_guis(message@)]);
            let gone = involving(start.incantations@, player_id);
            let cancel_mail = cancellation_mail(start.clients@, gone, player_id);
            let pdi_mail = seq![to_guis(message@)];
            let mail = cancel_mail + dead_mail + pdi_mail;
            assert(token_of(start.clients@, player_id) == token);
            assert forall|j: int| 0 <= j < start.clients@.len() implies #[trigger] self.clients@[j].1.output@
                == start.clients@[j].1.output@ + mail_bytes(mail, start.clients@[j].0, start.clients@[j].1) by {
                let (cid, c0) = start.clients@[j];
                let c1 = s1.clients@[j].1;
                let c3 = s3.clients@[j].1;
                lemma_mail_bytes_concat(cancel_mail, dead_mail, cid, c0);
                lemma_mail_bytes_concat(cancel_mail + dead_mail, pdi_mail, cid, c0);
                lemma_mail_bytes_same_state(dead_mail, cid, c0, c1);
                lemma_mail_bytes_same_state(pdi_mail, cid, c0, c3);
                assert(self.clients@[j].1.output@ =~= start.clients@[j].1.output@ + mail_bytes(mail, cid, c0));
            }
        }
    }
}


/// `after` is `before` once player `player_id` left with its client: its
/// incantations are cancelled and, if it was there, it is removed and the
/// graphical clients see `pdi`.
pub open spec fn player_left(before: GameState, after: GameState, player_id: usize) -> bool {
    let gone = involving(before.incantations@, player_id);
    let released = released_by_all(before.players@, gone);
    let cancel_mail = cancellation_mail(before.clients@, gone, player_id);
    let cleared = |j: int| cleared_by_all(before.clients@, before.clients@[j].0, before.clients@[j].1.active, gone);
    &&& after.incantations@ == not_involving(before.incantations@, player_id)
    &&& after.eggs@ == before.eggs@
    &&& after.teams@ == before.teams@
    &&& after.map == before.map
    &&& after.frequency == before.frequency
    &&& after.next_client_id == before.next_client_id
    &&& after.next_player_id == before.next_player_id
    &&& after.next_egg_id == before.next_egg_id
    &&& after.next_incantation_id == before.next_incantation_id
    &&& after.next_resource_spawn == before.next_resource_spawn
    &&& after.winner == before.winner
    &&& match player_position(before.players@, player_id) {
        None => {
            &&& after.players@ == released
            &&& clients_changed(before.clients@, after.clients@, cancel_mail, cleared)
        },
        Some(i) => {
            &&& after.players@ == released.remove(i)
            &&& clients_changed(
                before.clients@,
                after.clients@,
                cancel_mail + seq![to_guis(tagged_id_text("pdi"@, player_id as nat))],
                cleared,
            )
        },
    }
}

/// `after` is `before` once the client `token` went away: the player it
/// played, if any, left (see `player_left`).
pub open spec fn disconnected(before: GameState, after: GameState, token: ClientId) -> bool {
    match crate::game::client_position(before.clients@, token) {
        Some(c) => match before.clients@[c].1.player_id {
            Some(player_id) => player_left(before, after, player_id),
            None => after == before,
        },
        None => after == before,
    }
}

impl GameState {
    /// The client `token` is gone: the player it played, if any, leaves.
    pub fn handle_client_disconnect(&mut self, token: ClientId)
        requires
            old(self).wf(),
        ensures
            final(self).wf(),
            disconnected(*old(self), *final(self), token),
    {
        let ghost start = *self;
        let c = match self.find_client(token) {
            Some(c) => c,
            None => return,
        };
        let player_id = match self.clients[c].1.player_id {
            Some(player_id) => player_id,
            None => return,
        };
        self.cancel_incantations_for_player(player_id);
        let ghost s1 = *self;
        proof {
            assert(s1.player_ids().len() == start.player_ids().len());
            assert forall|j: int| 0 <= j < s1.players@.len() implies (#[trigger] s1.players@[j]).id
                == start.players@[j].id by {
                assert(s1.player_ids()[j] == start.player_ids()[j]);
            }
            lemma_player_position_same(s1.players@, start.players@, player_id);
        }
        let i = match self.find_player(player_id) {
            Some(i) => i,
            None => return,
        };
        self.remove_player_at(i);
        let ghost s2 = *self;
        let message = pdi(player_id);
        self.broadcast_to_guis(message.as_str());
        proof {
            lemma_wf_only_sent(s2, *self, seq![to_guis(message@)]);
            let gone = involving(start.incantations@, player_id);
            let cancel_mail = cancellation_mail(start.clients@, gone, player_id);
            let cleared = |j: int| cleared_by_all(start.clients@, start.clients@[j].0, start.clients@[j].1.active, gone);
            crate::elevation::lemma_delivered_changed(s2.clients@, self.clients@, seq![to_guis(message@)]);
            crate::elevation::lemma_clients_changed_chain(start.clients@, s2.clients@, self.clients@, cancel_mail,
                seq![to_guis(message@)], cleared, |j: int| s2.clients@[j].1.active);
            crate::elevation::lemma_clients_changed_same_active(start.clients@, self.clients@,
                cancel_mail + seq![to_guis(message@)], |j: int| s2.clients@[j].1.active, cleared);
        }
    }
}


/// The earlier of two optional times.
pub open spec fn earliest(a: Option<u64>, b: Option<u64>) -> Option<u64> {
    match (a, b) {
        (Some(x), Some(y)) => Some(if x <= y { x } else { y }),
        (Some(x), None) => Some(x),
        (None, _) => b,
    }
}

/// Player `player_id` exists and is frozen by an incantation.
pub open spec fn frozen(players: Seq<Player>, player_id: usize) -> bool {
    match player_position(players, player_id) {
        Some(i) => players[i].frozen_by is Some,
        None => false,
    }
}

/// When the first running command of `clients` completes; the commands of
/// frozen players wait, but for an incantation.
pub open spec fn command_deadline(clients: Seq<(ClientId, Client)>, players: Seq<Player>) -> Option<u64>
    decreases clients.len(),
{
    if clients.len() == 0 {
        None
    } else {
        let earlier = command_deadline(clients.drop_last(), players);
        let c = clients.last().1;
        match c.active {
            None => earlier,
            Some(active) => if (c.player_id matches Some(p) && frozen(players, p)) && !(active.command@ is Incantation) {
                earlier
            } else {
                earliest(earlier, Some(active.finishes_at))
            },
        }
    }
}

/// When the first player of `players` next eats.
pub open spec fn food_deadline(players: Seq<Player>) -> Option<u64>
    decreases players.len(),
{
    if players.len() == 0 {
        None
    } else {
        earliest(food_deadline(players.drop_last()), Some(players.last().next_food_tick))
    }
}

impl GameState {
    /// When something is next due: a command, a meal or the refill of the
    /// map.
    pub fn next_deadline(&self) -> (deadline: Option<u64>)
        ensures
            deadline == earliest(
                earliest(command_deadline(self.clients@, self.players@), food_deadline(self.players@)),
                Some(self.next_resource_spawn),
            ),
    {
        let mut command: Option<u64> = None;
        let mut j: usize = 0;
        while j < self.clients.len()
            invariant
                j <= self.clients@.len(),
                command == command_deadline(self.clients@.take(j as int), self.players@),
            decreases self.clients@.len() - j,
        {
            assert(self.clients@.take(j + 1).drop_last() =~= self.clients@.take(j as int));
            let client = &self.clients[j].1;
            match &client.active {
                None => {},
                Some(active) => {
                    let waits = match client.player_id {
                        Some(player_id) => self.is_player_frozen(player_id),
                        None => false,
                    } && !active.command.is_incantation();
                    if !waits {
                        command = match command {
                            Some(earlier) => Some(if earlier <= active.finishes_at { earlier } else { active.finishes_at }),
                            None => Some(active.finishes_at),
                        };
                    }
                },
            }
            j = j + 1;
        }
        assert(self.clients@.take(j as int) =~= self.clients@);
        let mut food: Option<u64> = None;
        let mut k: usize = 0;
        while k < self.players.len()
            invariant
                k <= self.players@.len(),
                food == food_deadline(self.players@.take(k as int)),
            decreases self.players@.len() - k,
        {
            assert(self.players@.take(k + 1).drop_last() =~= self.players@.take(k as int));
            let tick = self.players[k].next_food_tick;
            food = match food {
                Some(earlier) => Some(if earlier <= tick { earlier } else { tick }),
                None => Some(tick),
            };
            k = k + 1;
        }
        assert(self.players@.take(k as int) =~= self.players@);
        let first = match (command, food) {
            (Some(a), Some(b)) => Some(if a <= b { a } else { b }),
            (Some(a), None) => Some(a),
            (None, b) => b,
        };
        match first {
            Some(a) => Some(if a <= self.next_resource_spawn { a } else { self.next_resource_spawn }),
            None => Some(self.next_resource_spawn),
        }
    }
}


/// `n`, at most the largest `usize`.
pub open spec fn capped(n: nat) -> nat {
    if n <= usize::MAX {
        n
    } else {
        usize::MAX as nat
    }
}

/// `t + d`, at most the largest `u64`.
pub open spec fn later(t: u64, d: nat) -> u64 {
    if t + d > u64::MAX {
        u64::MAX
    } else {
        (t + d) as u64
    }
}

/// Player `p` once it ate one unit of food, its next meal `d` nanoseconds
/// later.
pub open spec fn after_meal(p: Player, d: nat) -> Player {
    Player {
        inventory: p.inventory.minus_one(Resource::Food),
        next_food_tick: later(p.next_food_tick, d),
        ..p
    }
}

/// Player `p` once it ate every meal due by `now` that its food allows.
pub open spec fn fed_player(p: Player, d: nat, now: u64) -> Player
    decreases p.inventory.food,
{
    if p.next_food_tick > now || p.inventory.food == 0 {
        p
    } else {
        fed_player(after_meal(p, d), d, now)
    }
}

/// Number of meals player `p` eats by `now`.
pub open spec fn meal_count(p: Player, d: nat, now: u64) -> nat
    decreases p.inventory.food,
{
    if p.next_food_tick > now || p.inventory.food == 0 {
        0
    } else {
        1 + meal_count(after_meal(p, d), d, now)
    }
}

/// What the graphical clients see of player `p`'s meals by `now`: `pin`
/// after each one.
pub open spec fn meal_mail(p: Player, d: nat, now: u64) -> Seq<Mail>
    decreases p.inventory.food,
{
    if p.next_food_tick > now || p.inventory.food == 0 {
        Seq::empty()
    } else {
        seq![to_guis(pin_text(after_meal(p, d)))] + meal_mail(after_meal(p, d), d, now)
    }
}

/// Player `p` still has a meal due by `now` once its food is gone: it
/// starves.
pub open spec fn starves(p: Player, d: nat, now: u64) -> bool {
    fed_player(p, d, now).next_food_tick <= now
}

/// `after` is `before` once player `player_id` ate what was due by `now`,
/// `count` being the meals eaten plus one for a death (at most the largest
/// `usize`): an unknown player
/// changes nothing; a player eats while meals are due and it has food,
/// and starves to death when a meal is due without food.
pub open spec fn player_fed(before: GameState, after: GameState, player_id: usize, now: u64, count: nat) -> bool {
    match player_position(before.players@, player_id) {
        None => after == before && count == 0,
        Some(i) => {
            let p = before.players@[i];
            let d = duration_nanos(FOOD_LIFETIME_TIME_UNITS as nat, before.frequency as nat);
            let fed = fed_player(p, d, now);
            let meals = meal_mail(p, d, now);
            if starves(p, d, now) {
                &&& count == capped(meal_count(p, d, now) + 1)
                &&& exists|mid: GameState|
                    #![trigger killed(mid, after, player_id)]
                    mid.replaced_player(before, i, fed) && delivered(before.clients@, mid.clients@, meals)
                        && killed(mid, after, player_id)
            } else {
                &&& count == meal_count(p, d, now)
                &&& after.replaced_player(before, i, fed)
                &&& delivered(before.clients@, after.clients@, meals)
            }
        },
    }
}

/// The sum of `counts`.
pub open spec fn total_of(counts: Seq<nat>) -> nat
    decreases counts.len(),
{
    if counts.len() == 0 {
        0
    } else {
        total_of(counts.drop_last()) + counts.last()
    }
}

/// `states` are the states of the game while the players `ids`, in order,
/// eat what is due by `now`, each one's meals and death counted in
/// `counts`.
pub open spec fn feeding_trace(states: Seq<GameState>, counts: Seq<nat>, ids: Seq<usize>, now: u64) -> bool {
    &&& states.len() == ids.len() + 1
    &&& counts.len() == ids.len()
    &&& forall|k: int|
        0 <= k < ids.len() ==> #[trigger] player_fed(states[k], states[k + 1], ids[k], now, counts[k])
}

/// `after` is `before` once the players `ids`, in order, ate what was due
/// by `now`, `count` counting meals and deaths.
pub open spec fn fed_players(before: GameState, after: GameState, ids: Seq<usize>, now: u64, count: nat) -> bool {
    exists|states: Seq<GameState>, counts: Seq<nat>|
        #![trigger feeding_trace(states, counts, ids, now)]
        feeding_trace(states, counts, ids, now) && states[0] == before && states.last() == after && count
            == total_of(counts)
}

impl GameState {
    /// Player `player_id` eats what is due by `now`, or starves; returns
    /// the meals eaten plus one for a death.
    pub fn feed_player(&mut self, player_id: usize, now: u64) -> (count: usize)
        requires
            old(self).wf(),
        ensures
            final(self).wf(),
            player_fed(*old(self), *final(self), player_id, now, count as nat),
    {
        let ghost start = *self;
        let i = match self.find_player(player_id) {
            Some(i) => i,
            None => return 0,
        };
        proof {
            crate::game::lemma_duration_bound(FOOD_LIFETIME_TIME_UNITS as nat, self.frequency as nat);
        }
        let d = self.duration(FOOD_LIFETIME_TIME_UNITS);
        let ghost p0 = self.players@[i as int];
        let ghost mut sent: Seq<Mail> = Seq::empty();
        let mut count: usize = 0;
        proof {
            lemma_player_position_is(start.players@, player_id, i as int);
            lemma_delivered_nothing(start.clients@);
            assert(start.players@.update(i as int, p0) =~= start.players@);
            lemma_meal_count_bound(p0, d as nat, now);
        }
        loop
            invariant
                start.wf(),
                start == *old(self),
                self.wf(),
                i < start.players@.len(),
                p0 == start.players@[i as int],
                player_position(start.players@, player_id) == Some(i as int),
                d == duration_nanos(FOOD_LIFETIME_TIME_UNITS as nat, start.frequency as nat),
                self.replaced_player(start, i as int, self.players@[i as int]),
                delivered(start.clients@, self.clients@, sent),
                fed_player(self.players@[i as int], d as nat, now) == fed_player(p0, d as nat, now),
                meal_mail(p0, d as nat, now) == sent + meal_mail(self.players@[i as int], d as nat, now),
                count + meal_count(self.players@[i as int], d as nat, now) == meal_count(p0, d as nat, now),
                meal_count(p0, d as nat, now) <= p0.inventory.food,
            decreases self.players@[i as int].inventory.food,
        {
            let ghost q = self.players@[i as int];
            proof {
                lemma_meal_count_bound(q, d as nat, now);
                lemma_meal_count_bound(p0, d as nat, now);
            }
            if self.players[i].next_food_tick > now {
                proof {
                    assert(fed_player(q, d as nat, now) == q);
                    assert(meal_count(q, d as nat, now) == 0);
                    assert(meal_mail(q, d as nat, now) =~= Seq::<Mail>::empty());
                    assert(sent + Seq::<Mail>::empty() =~= sent);
                    assert(!starves(p0, d as nat, now));
                    assert(count == meal_count(p0, d as nat, now));
                    assert(self.replaced_player(start, i as int, fed_player(p0, d as nat, now)));
                    assert(delivered(start.clients@, self.clients@, meal_mail(p0, d as nat, now)));
                }
                return count;
            }
            let ghost before_meal = *self;
            let consumed = self.players[i].inventory.remove(Resource::Food);
            if !consumed {
                proof {
                    assert(self.players@ =~= before_meal.players@);
                    assert(fed_player(q, d as nat, now) == q);
                    assert(meal_count(q, d as nat, now) == 0);
                    assert(meal_mail(q, d as nat, now) =~= Seq::<Mail>::empty());
                    assert(sent + Seq::<Mail>::empty() =~= sent);
                    assert(before_meal.replaced_player(start, i as int, fed_player(p0, d as nat, now)));
                }
                self.kill_player(player_id);
                return count.saturating_add(1);
            }
            self.players[i].next_food_tick = self.players[i].next_food_tick.saturating_add(d);
            let message = pin(&self.players[i]);
            let ghost s1 = *self;
            proof {
                assert(self.players@[i as int] == after_meal(q, d as nat));
                assert(self.players@ =~= start.players@.update(i as int, after_meal(q, d as nat)));
                lemma_wf_replaced_player(start, *self, i as int, after_meal(q, d as nat), sent);
            }
            self.broadcast_to_guis(message.as_str());
            proof {
                lemma_delivered_chain(start.clients@, s1.clients@, self.clients@, sent, seq![to_guis(message@)]);
                lemma_wf_only_sent(s1, *self, seq![to_guis(message@)]);
                assert(sent + seq![to_guis(message@)] + meal_mail(after_meal(q, d as nat), d as nat, now)
                    =~= sent + (seq![to_guis(message@)] + meal_mail(after_meal(q, d as nat), d as nat, now)));
                sent = sent + seq![to_guis(message@)];
            }
            count = count + 1;
        }
    }

    /// The identifiers of the players, in order.
    fn player_id_list(&self) -> (ids: Vec<usize>)
        ensures
            ids@ == self.player_ids(),
    {
        let mut ids: Vec<usize> = Vec::new();
        let mut k: usize = 0;
        while k < self.players.len()
            invariant
                k <= self.players@.len(),
                ids@ == self.player_ids().take(k as int),
            decreases self.players@.len() - k,
        {
            ids.push(self.players[k].id);
            proof {
                assert(ids@ =~= self.player_ids().take(k + 1));
            }
            k = k + 1;
        }
        assert(self.player_ids().take(k as int) =~= self.player_ids());
        ids
    }

    /// Every player present now eats what is due by `now`, or starves, in
    /// order; returns the meals eaten plus the deaths, at most the largest
    /// `usize`.
    pub fn process_food(&mut self, now: u64) -> (processed: usize)
        requires
            old(self).wf(),
        ensures
            final(self).wf(),
            food_processed(*old(self), *final(self), now, processed),
    {
        let ghost start = *self;
        let ids = self.player_id_list();
        let ghost mut states: Seq<GameState> = seq![start];
        let ghost mut counts: Seq<nat> = Seq::empty();
        let mut processed: usize = 0;
        let mut k: usize = 0;
        while k < ids.len()
            invariant
                start.wf(),
                self.wf(),
                k <= ids@.len(),
                ids@ == start.player_ids(),
                feeding_trace(states, counts, ids@.take(k as int), now),
                states[0] == start,
                states.last() == *self,
                processed == capped(total_of(counts)),
            decreases ids@.len() - k,
        {
            let ghost mid = *self;
            let eaten = self.feed_player(ids[k], now);
            proof {
                let next = ids@.take(k + 1);
                let new_states = states.push(*self);
                let new_counts = counts.push(eaten as nat);
                assert forall|m: int| 0 <= m < next.len() implies #[trigger] player_fed(
                    new_states[m],
                    new_states[m + 1],
                    next[m],
                    now,
                    new_counts[m],
                ) by {
                    if m < k {
                        assert(player_fed(states[m], states[m + 1], ids@.take(k as int)[m], now, counts[m]));
                    }
                }
                assert(new_counts.drop_last() =~= counts);
                states = new_states;
                counts = new_counts;
            }
            processed = processed.saturating_add(eaten);
            k = k + 1;
        }
        proof {
            assert(ids@.take(k as int) =~= start.player_ids());
            assert(feeding_trace(states, counts, start.player_ids(), now));
            assert(fed_players(start, *self, start.player_ids(), now, total_of(counts)));
        }
        processed
    }
}

/// A player eats at most its food.
proof fn lemma_meal_count_bound(p: Player, d: nat, now: u64)
    ensures
        meal_count(p, d, now) <= p.inventory.food,
    decreases p.inventory.food,
{
    if !(p.next_food_tick > now || p.inventory.food == 0) {
        lemma_meal_count_bound(after_meal(p, d), d, now);
    }
}


/// Number of refills due by `now` when the next is due at `spawn` and
/// they come every `d` nanoseconds; a due time stuck at the largest `u64`
/// counts once.
pub open spec fn refills_due(spawn: u64, d: nat, now: u64) -> nat
    decreases u64::MAX - spawn,
{
    if spawn > now {
        0
    } else if d == 0 || later(spawn, d) == spawn {
        1
    } else {
        1 + refills_due(later(spawn, d), d, now)
    }
}

/// When the next refill is due once those due by `now` took place.
pub open spec fn next_refill(spawn: u64, d: nat, now: u64) -> u64
    decreases u64::MAX - spawn,
{
    if spawn > now {
        spawn
    } else if d == 0 || later(spawn, d) == spawn {
        later(spawn, d)
    } else {
        next_refill(later(spawn, d), d, now)
    }
}

/// `after` is map `before` once refilled: each resource that ran short is
/// back to what the map's size calls for.
pub open spec fn refilled(before: GameMap, after: GameMap) -> bool {
    &&& after.spec_width() == before.spec_width()
    &&& after.spec_height() == before.spec_height()
    &&& forall|r: Resource| #[trigger] after.total(r) == if before.total(r) < target_units(
        before.spec_width() * before.spec_height(),
        r,
    ) {
        target_units(before.spec_width() * before.spec_height(), r)
    } else {
        before.total(r)
    }
}

/// The `bct` lines of the tiles `tiles` of `map`, one after another.
pub open spec fn bct_lines(map: GameMap, tiles: Seq<(usize, usize)>) -> Seq<char>
    decreases tiles.len(),
{
    if tiles.len() == 0 {
        Seq::empty()
    } else {
        bct_lines(map, tiles.drop_last()) + bct_for(map, tiles.last().0 as nat, tiles.last().1 as nat)
    }
}

/// `after` is `before` refilled (see `refilled`) by one unit on each tile
/// of `tiles` in turn, and nothing else changed.
pub open spec fn refill_step(before: GameMap, after: GameMap, tiles: Seq<(usize, usize)>) -> bool {
    &&& refilled(before, after)
    &&& exists|placed: Seq<((usize, usize), Resource)>|
        #![trigger units_added(before, after, placed)]
        placed_tiles(placed) == tiles && units_added(before, after, placed)
}

/// `maps` are the map before the refills and after each of them, and
/// `tiles` the tiles that each refill put a unit on.
pub open spec fn refill_trace(maps: Seq<GameMap>, tiles: Seq<Seq<(usize, usize)>>) -> bool {
    &&& maps.len() == tiles.len() + 1
    &&& forall|k: int| 0 <= k < tiles.len() ==> #[trigger] refill_step(maps[k], maps[k + 1], tiles[k])
}

/// What the graphical clients are told of the refills: after each one, in
/// one message, the `bct` lines of the tiles it put a unit on.
pub open spec fn refill_mail(maps: Seq<GameMap>, tiles: Seq<Seq<(usize, usize)>>) -> Seq<Mail> {
    Seq::new(tiles.len(), |k: int| to_guis(bct_lines(maps[k + 1], tiles[k])))
}

impl GameState {
    /// Refills the map as many times as refills are due by `now`, the
    /// graphical clients seeing `bct` for every tile that got a unit;
    /// returns the number of refills, at most the largest `usize`.
    pub fn process_resource_respawn(&mut self, now: u64) -> (processed: usize)
        requires
            old(self).wf(),
        ensures
            final(self).wf(),
            respawned(*old(self), *final(self), now, processed),
    {
        proof {
            self.map.lemma_area_fits();
        }
        let ghost start = *self;
        proof {
            crate::game::lemma_duration_bound(RESOURCE_RESPAWN_TIME_UNITS as nat, self.frequency as nat);
        }
        let d = self.duration(RESOURCE_RESPAWN_TIME_UNITS);
        let ghost dn = d as nat;
        let mut processed: usize = 0;
        let ghost mut mail: Seq<Mail> = Seq::empty();
        let ghost mut count: nat = 0;
        let ghost mut maps: Seq<GameMap> = seq![start.map];
        let ghost mut tiles: Seq<Seq<(usize, usize)>> = Seq::empty();
        proof {
            assert(mail =~= refill_mail(maps, tiles));
        }
        proof {
            lemma_delivered_nothing(start.clients@);
        }
        while self.next_resource_spawn <= now
            invariant_except_break
                refills_due(start.next_resource_spawn, dn, now) == count + refills_due(self.next_resource_spawn, dn, now),
                next_refill(start.next_resource_spawn, dn, now) == next_refill(self.next_resource_spawn, dn, now),
            invariant
                start.wf(),
                self.wf(),
                start.map.spec_width() * start.map.spec_height() <= usize::MAX,
                d == duration_nanos(RESOURCE_RESPAWN_TIME_UNITS as nat, start.frequency as nat),
                d > 0,
                dn == d as nat,
                self.frequency == start.frequency,
                processed == capped(count),
                count == 0 ==> self.map == start.map,
                count > 0 ==> refilled(start.map, self.map),
                self.map.spec_width() == start.map.spec_width(),
                self.map.spec_height() == start.map.spec_height(),
                delivered(start.clients@, self.clients@, mail),
                mail == refill_mail(maps, tiles),
                refill_trace(maps, tiles),
                tiles.len() == count,
                maps[0] == start.map,
                maps.last() == self.map,
                self.players@ == start.players@,
                self.eggs@ == start.eggs@,
                self.teams@ == start.teams@,
                self.next_client_id == start.next_client_id,
                self.next_player_id == start.next_player_id,
                self.next_egg_id == start.next_egg_id,
                self.next_incantation_id == start.next_incantation_id,
                self.incantations@ == start.incantations@,
                self.winner == start.winner,
            ensures
                refills_due(start.next_resource_spawn, dn, now) == count,
                next_refill(start.next_resource_spawn, dn, now) == self.next_resource_spawn,
            decreases u64::MAX - self.next_resource_spawn,
        {
            let ghost before_map = self.map;
            let ghost spawn_before = self.next_resource_spawn;
            let changed = refill_missing_resources(&mut self.map);
            let mut messages = String::new();
            let mut k: usize = 0;
            proof {
                assert(changed@.take(0) =~= Seq::<(usize, usize)>::empty());
            }
            while k < changed.len()
                invariant
                    self.map.wf(),
                    k <= changed@.len(),
                    forall|m: int| 0 <= m < changed@.len() ==> self.map.contains(changed@[m].0 as int, changed@[m].1 as int),
                    messages@ == bct_lines(self.map, changed@.take(k as int)),
                decreases changed@.len() - k,
            {
                let line = bct(&self.map, changed[k].0, changed[k].1);
                append(&mut messages, line.as_str());
                proof {
                    assert(changed@.take(k + 1).drop_last() =~= changed@.take(k as int));
                }
                k = k + 1;
            }
            proof {
                assert(changed@.take(k as int) =~= changed@);
            }
            let ghost s1 = *self;
            proof {
                assert forall|j: int| 0 <= j < self.players@.len() implies (#[trigger] self.players@[j]).id
                    < self.next_player_id && self.map.contains(self.players@[j].x as int, self.players@[j].y as int) by {
                    let _ = start.players@[j];
                }
                assert forall|j: int| 0 <= j < self.eggs@.len() implies (#[trigger] self.eggs@[j]).id
                    < self.next_egg_id && self.map.contains(self.eggs@[j].x as int, self.eggs@[j].y as int) by {
                    let _ = start.eggs@[j];
                }
                if count > 0 {
                    assert forall|r: Resource| #[trigger] self.map.total(r) == if start.map.total(r) < target_units(
                        start.map.spec_width() * start.map.spec_height(),
                        r,
                    ) {
                        target_units(start.map.spec_width() * start.map.spec_height(), r)
                    } else {
                        start.map.total(r)
                    } by {
                        assert(before_map.total(r) == if start.map.total(r) < target_units(
                            start.map.spec_width() * start.map.spec_height(),
                            r,
                        ) {
                            target_units(start.map.spec_width() * start.map.spec_height(), r)
                        } else {
                            start.map.total(r)
                        });
                    }
                }
            }
            self.broadcast_to_guis(messages.as_str());
            proof {
                lemma_wf_only_sent(s1, *self, seq![to_guis(messages@)]);
                lemma_delivered_chain(start.clients@, s1.clients@, self.clients@, mail, seq![to_guis(messages@)]);
                let new_mail = mail + seq![to_guis(messages@)];
                let new_maps = maps.push(self.map);
                let new_tiles = tiles.push(changed@);
                assert(refill_step(before_map, self.map, changed@));
                assert forall|m: int| 0 <= m < new_tiles.len() implies #[trigger] refill_step(
                    new_maps[m],
                    new_maps[m + 1],
                    new_tiles[m],
                ) by {
                    if m < tiles.len() {
                        assert(refill_step(maps[m], maps[m + 1], tiles[m]));
                    }
                }
                assert(new_mail =~= refill_mail(new_maps, new_tiles));
                mail = new_mail;
                maps = new_maps;
                tiles = new_tiles;
                count = count + 1;
            }
            processed = processed.saturating_add(1);
            proof {
                assert(refills_due(start.next_resource_spawn, dn, now) == (count - 1) + refills_due(spawn_before, dn, now));
            }
            let next = self.next_resource_spawn.saturating_add(d);
            if next == self.next_resource_spawn {
                proof {
                    assert(later(self.next_resource_spawn, dn) == self.next_resource_spawn);
                }
                self.next_resource_spawn = next;
                break;
            }
            self.next_resource_spawn = next;
        }
        proof {
            assert(refill_trace(maps, tiles));
        }
        processed
    }
}

/// `after` is `before` once every player present ate what was due by
/// `now`, or starved, in order; `processed` counts the meals and deaths,
/// at most the largest `usize`.
pub open spec fn food_processed(before: GameState, after: GameState, now: u64, processed: usize) -> bool {
    &&& exists|total: nat|
        #![trigger fed_players(before, after, before.player_ids(), now, total)]
        fed_players(before, after, before.player_ids(), now, total) && processed == capped(
            total,
        )
}

/// `after` is `before` once the map was refilled as many times as refills
/// were due by `now`; `processed` counts them, at most the largest
/// `usize`.
pub open spec fn respawned(before: GameState, after: GameState, now: u64, processed: usize) -> bool {
    &&& processed == capped(
        refills_due(
            before.next_resource_spawn,
            duration_nanos(RESOURCE_RESPAWN_TIME_UNITS as nat, before.frequency as nat),
            now,
        ),
    )
    &&& after.next_resource_spawn == next_refill(
        before.next_resource_spawn,
        duration_nanos(RESOURCE_RESPAWN_TIME_UNITS as nat, before.frequency as nat),
        now,
    )
    &&& processed == 0 ==> after.map == before.map
    &&& processed > 0 ==> refilled(before.map, after.map)
    &&& exists|maps: Seq<GameMap>, tiles: Seq<Seq<(usize, usize)>>|
        #![trigger refill_trace(maps, tiles)]
        refill_trace(maps, tiles) && tiles.len() == refills_due(
            before.next_resource_spawn,
            duration_nanos(RESOURCE_RESPAWN_TIME_UNITS as nat, before.frequency as nat),
            now,
        ) && maps[0] == before.map && maps.last() == after.map && delivered(
            before.clients@,
            after.clients@,
            refill_mail(maps, tiles),
        )
    &&& after.players@ == before.players@
    &&& after.eggs@ == before.eggs@
    &&& after.teams@ == before.teams@
    &&& after.frequency == before.frequency
    &&& after.next_client_id == before.next_client_id
    &&& after.next_player_id == before.next_player_id
    &&& after.next_egg_id == before.next_egg_id
    &&& after.next_incantation_id == before.next_incantation_id
    &&& after.incantations@ == before.incantations@
    &&& after.winner == before.winner
}

} // verus!

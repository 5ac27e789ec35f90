//! How a client introduces itself: as a graphical client, or as a player
//! of a team, who hatches from one of the team's eggs.
use rand::seq::SliceRandom;
use rand::Rng;
use vstd::prelude::*;
use vstd::utf8::encode_utf8;

use crate::client::{same_but_output, Client, ClientId, ClientState};
use crate::constants::{FOOD_LIFETIME_TIME_UNITS, INITIAL_FOOD, INITIAL_LEVEL, KO_RESPONSE, MAX_PENDING_COMMANDS};
use crate::entities::{Egg, Orientation, Player, Team};
use crate::game::{
    client_position, lemma_client_ids_distinct, lemma_client_position_is, lemma_wf_only_sent, mail_bytes, to_client, to_guis, GameState, Mail,
};
use crate::gui::{initial_snapshot, snapshot_text};
use crate::gui_messages::{ebo, pin, pin_text, pnw, pnw_text, tagged_id_text};
use crate::lifecycle::{later, lemma_mail_bytes_one};
use crate::text::{append, append_decimal, decimal, same_text};
use crate::timing::duration_nanos;
use crate::world::{Inventory, Resource};

verus! {

/// The identifiers of the eggs of team `team`, in order.
pub open spec fn team_eggs(eggs: Seq<Egg>, team: Seq<char>) -> Seq<usize>
    decreases eggs.len(),
{
    if eggs.len() == 0 {
        Seq::empty()
    } else {
        let earlier = team_eggs(eggs.drop_last(), team);
        if eggs.last().team_name@ == team {
            earlier.push(eggs.last().id)
        } else {
            earlier
        }
    }
}

/// A team is called `team`.
pub open spec fn has_team_named(teams: Seq<Team>, team: Seq<char>) -> bool {
    exists|i: int| 0 <= i < teams.len() && #[trigger] teams[i].name@ == team
}

/// What a new player is told: the free slots of its team, then the map's
/// size.
pub open spec fn connection_text(slots: nat, width: nat, height: nat) -> Seq<char> {
    decimal(slots) + "\n"@ + decimal(width) + " "@ + decimal(height) + "\n"@
}

/// `p` is the player `id` of team `team` hatched from `egg`, facing
/// `orientation`, at the first level with the initial food, next eating at
/// `tick`.
pub open spec fn hatched(p: Player, id: usize, team: Seq<char>, egg: Egg, orientation: Orientation, tick: u64) -> bool {
    &&& p.id == id
    &&& p.team_name@ == team
    &&& p.x == egg.x
    &&& p.y == egg.y
    &&& p.orientation == orientation
    &&& p.level == INITIAL_LEVEL
    &&& p.inventory == Inventory::empty_spec().with_count(Resource::Food, INITIAL_FOOD as nat)
    &&& p.frozen_by is None
    &&& p.next_food_tick == tick
}

/// What the graphical clients see when a player hatches from an egg:
/// `pnw`, `pin` and `ebo`.
pub open spec fn hatch_text(p: Player, egg_id: usize) -> Seq<char> {
    pnw_text(p) + pin_text(p) + tagged_id_text("ebo"@, egg_id as nat)
}

/// `after` is `before` once client `client_id` became the player hatched
/// from the egg at position `e`, facing `orientation`, at `now`: the egg is
/// gone, the player takes the next identifier, the client plays it and is
/// told its team's free slots and the map's size, and the graphical
/// clients see the hatching.
pub open spec fn ai_joined(
    before: GameState,
    after: GameState,
    client_id: ClientId,
    e: int,
    orientation: Orientation,
    now: u64,
) -> bool {
    let egg = before.eggs@[e];
    let team = egg.team_name@;
    let id = before.next_player_id;
    let tick = later(now, duration_nanos(FOOD_LIFETIME_TIME_UNITS as nat, before.frequency as nat));
    let remaining = before.eggs@.remove(e);
    let p = after.players@.last();
    let reply = connection_text(team_eggs(remaining, team).len(), before.map.spec_width(), before.map.spec_height());
    &&& after.eggs@ == remaining
    &&& after.players@.len() == before.players@.len() + 1
    &&& after.players@.drop_last() == before.players@
    &&& hatched(p, id, team, egg, orientation, tick)
    &&& after.next_player_id == id + 1
    &&& after.clients@.len() == before.clients@.len()
    &&& forall|j: int|
        #![trigger after.clients@[j]]
        0 <= j < before.clients@.len() ==> {
            let (cid, c) = before.clients@[j];
            let a = after.clients@[j].1;
            &&& after.clients@[j].0 == cid
            &&& if cid == client_id {
                &&& a.state == ClientState::Ai
                &&& a.team_name matches Some(t) && t@ == team
                &&& a.player_id == Some(id)
                &&& a.input == c.input
                &&& a.output_offset == c.output_offset
                &&& a.queue == c.queue
                &&& a.active == c.active
                &&& a.close_after_flush == c.close_after_flush
                &&& a.output@ == c.output@ + encode_utf8(reply)
            } else {
                &&& same_but_output(c, a)
                &&& a.output@ == c.output@ + mail_bytes(seq![to_guis(hatch_text(p, egg.id))], cid, c)
            }
        }
    &&& after.teams@ == before.teams@
    &&& after.map == before.map
    &&& after.frequency == before.frequency
    &&& after.next_client_id == before.next_client_id
    &&& after.next_egg_id == before.next_egg_id
    &&& after.next_incantation_id == before.next_incantation_id
    &&& after.next_resource_spawn == before.next_resource_spawn
    &&& after.incantations@ == before.incantations@
    &&& after.winner == before.winner
}

/// `after` is `before` once client `client_id` became a graphical
/// client: it is no longer anyone's, and gets the state of the game.
pub open spec fn gui_authenticated(before: GameState, after: GameState, client_id: ClientId) -> bool {
    match client_position(before.clients@, client_id) {
        None => after.only_sent(before, seq![to_client(client_id, snapshot_text(before))]),
        Some(c) => {
            &&& after.same_world(before)
            &&& after.clients@.len() == before.clients@.len()
            &&& forall|j: int|
                #![trigger after.clients@[j]]
                0 <= j < before.clients@.len() && j != c ==> after.clients@[j] == before.clients@[j]
            &&& {
                let b = before.clients@[c].1;
                let a = after.clients@[c].1;
                &&& after.clients@[c].0 == client_id
                &&& a.state == ClientState::Gui
                &&& a.team_name is None
                &&& a.player_id is None
                &&& a.input == b.input
                &&& a.output_offset == b.output_offset
                &&& a.queue == b.queue
                &&& a.active == b.active
                &&& a.close_after_flush == b.close_after_flush
                &&& a.output@ == b.output@ + encode_utf8(snapshot_text(before))
            }
        },
    }
}

/// `after` is `before` once client `client_id` asked, at `now`, to play
/// for team `team`, `joined` telling whether it did.
pub open spec fn ai_authenticated(before: GameState, after: GameState, client_id: ClientId, team: Seq<char>, now: u64, joined: bool) -> bool {
    &&& joined == (client_position(before.clients@, client_id) is Some && has_team_named(
            before.teams@,
            team,
        ) && team_eggs(before.eggs@, team).len() > 0)
    &&& !joined ==> after.only_sent(before, seq![to_client(client_id, KO_RESPONSE@)])
    &&& joined ==> exists|e: int, orientation: Orientation|
            #![trigger ai_joined(before, after, client_id, e, orientation, now)]
            0 <= e < before.eggs@.len() && before.eggs@[e].team_name@ == team && ai_joined(
                before,
                after,
                client_id,
                e,
                orientation,
                now,
            )
}

/// `rand` picks one of `ids` with the thread's generator: none when there
/// are none, otherwise any one of them may come out.
#[verifier::external_body]
fn random_choice(ids: &Vec<usize>) -> (choice: Option<usize>)
    ensures
        ids@.len() == 0 <==> choice is None,
        choice matches Some(id) ==> ids@.contains(id),
{
    ids.choose(&mut rand::thread_rng()).copied()
}

/// `rand` draws a number from 0 to `bound` - 1 with the thread's
/// generator; any of them may come out.
#[verifier::external_body]
pub(crate) fn random_below(bound: usize) -> (value: usize)
    requires
        bound > 0,
    ensures
        value < bound,
{
    rand::thread_rng().gen_range(0..bound)
}

/// One of the four orientations, drawn at random.
pub fn random_orientation() -> (orientation: Orientation) {
    let value = random_below(4);
    Orientation::from_gui_value(value + 1)
}

impl GameState {
    /// Number of eggs of team `team_name`.
    pub fn available_egg_count(&self, team_name: &str) -> (count: usize)
        ensures
            count == team_eggs(self.eggs@, team_name@).len(),
    {
        let ids = self.team_egg_ids(team_name);
        ids.len()
    }

    /// The identifiers of the eggs of team `team_name`, in order.
    fn team_egg_ids(&self, team_name: &str) -> (ids: Vec<usize>)
        ensures
            ids@ == team_eggs(self.eggs@, team_name@),
    {
        let mut ids: Vec<usize> = Vec::new();
        let mut k: usize = 0;
        while k < self.eggs.len()
            invariant
                k <= self.eggs@.len(),
                ids@ == team_eggs(self.eggs@.take(k as int), team_name@),
            decreases self.eggs@.len() - k,
        {
            assert(self.eggs@.take(k + 1).drop_last() =~= self.eggs@.take(k as int));
            if same_text(self.eggs[k].team_name.as_str(), team_name) {
                ids.push(self.eggs[k].id);
            }
            k = k + 1;
        }
        assert(self.eggs@.take(k as int) =~= self.eggs@);
        ids
    }

    /// A team is called `team_name`.
    pub fn has_team(&self, team_name: &str) -> (found: bool)
        ensures
            found == has_team_named(self.teams@, team_name@),
    {
        let mut k: usize = 0;
        while k < self.teams.len()
            invariant
                k <= self.teams@.len(),
                forall|m: int| 0 <= m < k ==> self.teams@[m].name@ != team_name@,
            decreases self.teams@.len() - k,
        {
            if same_text(self.teams[k].name.as_str(), team_name) {
                return true;
            }
            k = k + 1;
        }
        false
    }

    /// Client `client_id` becomes a graphical client and gets the state of
    /// the game.
    pub fn authenticate_gui(&mut self, client_id: ClientId)
        requires
            old(self).wf(),
        ensures
            final(self).wf(),
            gui_authenticated(*old(self), *final(self), client_id),
    {
        let ghost start = *self;
        let snapshot = initial_snapshot(self);
        match self.find_client(client_id) {
            Some(c) => {
                proof {
                    lemma_client_position_is(start.clients@, client_id, c as int);
                    assert forall|j: int| 0 <= j < start.clients@.len() && j != c implies start.clients@[j].0 != client_id by {
                        assert(start.clients@.map_values(|x: (ClientId, Client)| x.0.0) =~= start.client_ids());
                        lemma_client_ids_distinct(start.clients@, c as int, j);
                    }
                }
                self.clients[c].1.state = ClientState::Gui;
                self.clients[c].1.team_name = None;
                self.clients[c].1.player_id = None;
                self.clients[c].1.queue_text(snapshot.as_str());
                proof {
                    assert(self.client_ids() =~= start.client_ids()) by {
                        assert forall|j: int| 0 <= j < self.clients@.len() implies #[trigger] self.client_ids()[j]
                            == start.client_ids()[j] by {
                            let _ = start.clients@[j];
                        }
                    }
                    assert forall|j: int| 0 <= j < self.clients@.len() implies (#[trigger] self.clients@[j]).0.0
                        < self.next_client_id && self.clients@[j].1.queue@.len() <= MAX_PENDING_COMMANDS by {
                        let _ = start.clients@[j];
                    }
                }
            },
            None => {
                proof {
                    assert forall|j: int| 0 <= j < start.clients@.len() implies start.clients@[j].0 != client_id by {
                        crate::game::lemma_client_position_none(start.clients@, client_id, j);
                    }
                }
                self.queue_to_client(client_id, snapshot.as_str());
                proof {
                    lemma_wf_only_sent(start, *self, seq![to_client(client_id, snapshot@)]);
                }
            },
        }
    }
}


/// The bytes one message to the graphical clients adds to a client's
/// output.
proof fn lemma_mail_bytes_guis_one(text: Seq<char>, id: ClientId, client: Client)
    ensures
        mail_bytes(seq![to_guis(text)], id, client) == if client.state == ClientState::Gui {
            encode_utf8(text)
        } else {
            Seq::empty()
        },
{
    reveal_with_fuel(mail_bytes, 2);
    assert(seq![to_guis(text)].drop_last() =~= Seq::<Mail>::empty());
    assert(Seq::<u8>::empty() + encode_utf8(text) =~= encode_utf8(text));
}

impl GameState {
    /// Client `client_id` becomes the player hatched from the egg at
    /// position `e`, facing `orientation`, at `now`.
    pub fn hatch_player(&mut self, client_id: ClientId, e: usize, orientation: Orientation, now: u64)
        requires
            old(self).wf(),
            client_position(old(self).clients@, client_id) is Some,
            e < old(self).eggs@.len(),
            old(self).next_player_id < usize::MAX,
        ensures
            final(self).wf(),
            ai_joined(*old(self), *final(self), client_id, e as int, orientation, now),
    {
        let ghost start = *self;
        let c = match self.find_client(client_id) {
            Some(c) => c,
            None => return,
        };
        proof {
            lemma_client_position_is(start.clients@, client_id, c as int);
            assert forall|j: int| 0 <= j < start.clients@.len() && j != c implies start.clients@[j].0 != client_id by {
                assert(start.clients@.map_values(|x: (ClientId, Client)| x.0.0) =~= start.client_ids());
                lemma_client_ids_distinct(start.clients@, c as int, j);
            }
        }
        let egg = self.eggs.remove(e);
        let player_id = self.next_player_id;
        self.next_player_id = self.next_player_id + 1;
        proof {
            crate::game::lemma_duration_bound(FOOD_LIFETIME_TIME_UNITS as nat, self.frequency as nat);
        }
        let d = self.duration(FOOD_LIFETIME_TIME_UNITS);
        let tick = now.saturating_add(d);
        let team = egg.team_name.clone();
        let player = Player::new(player_id, team.clone(), egg.x, egg.y, orientation, tick);
        self.clients[c].1.state = ClientState::Ai;
        self.clients[c].1.team_name = Some(team.clone());
        self.clients[c].1.player_id = Some(player_id);
        self.players.push(player);
        let ghost s7 = *self;
        proof {
            assert(self.eggs@ == start.eggs@.remove(e as int));
            let a = self.egg_ids();
            let b = start.egg_ids();
            assert forall|j: int, k: int| 0 <= j < k < a.len() implies a[j] < a[k] by {
                let jj = if j < e { j } else { j + 1 };
                let kk = if k < e { k } else { k + 1 };
                assert(self.eggs@[j] == start.eggs@[jj]);
                assert(self.eggs@[k] == start.eggs@[kk]);
                assert(b[jj] < b[kk]);
            }
            assert forall|j: int| 0 <= j < self.eggs@.len() implies (#[trigger] self.eggs@[j]).id
                < self.next_egg_id && self.map.contains(self.eggs@[j].x as int, self.eggs@[j].y as int) by {
                let jj = if j < e { j } else { j + 1 };
                assert(self.eggs@[j] == start.eggs@[jj]);
            }
            let pa = self.player_ids();
            let pb = start.player_ids();
            assert forall|j: int, k: int| 0 <= j < k < pa.len() implies pa[j] < pa[k] by {
                assert(pa[j] == self.players@[j].id);
                assert(pa[k] == self.players@[k].id);
                assert(self.players@[j] == start.players@[j]);
                if k < pb.len() {
                    assert(self.players@[k] == start.players@[k]);
                    assert(pb[j] == start.players@[j].id);
                    assert(pb[k] == start.players@[k].id);
                } else {
                    assert(self.players@[k].id == player_id);
                    assert(start.players@[j].id < start.next_player_id);
                }
            }
            assert forall|j: int| 0 <= j < self.players@.len() implies (#[trigger] self.players@[j]).id
                < self.next_player_id && self.map.contains(self.players@[j].x as int, self.players@[j].y as int) by {
                if j < start.players@.len() {
                    assert(self.players@[j] == start.players@[j]);
                }
            }
            assert(self.client_ids() =~= start.client_ids()) by {
                assert forall|j: int| 0 <= j < self.clients@.len() implies #[trigger] self.client_ids()[j]
                    == start.client_ids()[j] by {
                    let _ = start.clients@[j];
                }
            }
            assert forall|j: int| 0 <= j < self.clients@.len() implies (#[trigger] self.clients@[j]).0.0
                < self.next_client_id && self.clients@[j].1.queue@.len() <= MAX_PENDING_COMMANDS by {
                let _ = start.clients@[j];
            }
        }
        let slots = self.available_egg_count(team.as_str());
        let mut response = String::new();
        append_decimal(&mut response, slots);
        append(&mut response, "\n");
        append_decimal(&mut response, self.map.width());
        append(&mut response, " ");
        append_decimal(&mut response, self.map.height());
        append(&mut response, "\n");
        self.queue_to_client(client_id, response.as_str());
        let ghost s9 = *self;
        let last = self.players.len() - 1;
        let mut message = pnw(&self.players[last]);
        let inventory = pin(&self.players[last]);
        append(&mut message, inventory.as_str());
        let hatch = ebo(egg.id);
        append(&mut message, hatch.as_str());
        self.broadcast_to_guis(message.as_str());
        proof {
            lemma_wf_only_sent(s7, s9, seq![to_client(client_id, response@)]);
            lemma_wf_only_sent(s9, *self, seq![to_guis(message@)]);
            assert(self.players@.drop_last() =~= start.players@);
            assert forall|j: int| 0 <= j < start.clients@.len() implies {
                let (cid, cl) = start.clients@[j];
                let a = (#[trigger] self.clients@[j]).1;
                &&& self.clients@[j].0 == cid
                &&& a.output@ == cl.output@ + if cid == client_id {
                    encode_utf8(response@)
                } else {
                    mail_bytes(seq![to_guis(message@)], cid, cl)
                }
            } by {
                let (cid, cl) = start.clients@[j];
                let c7 = s7.clients@[j].1;
                let c9 = s9.clients@[j].1;
                lemma_mail_bytes_one(client_id, response@, cid, c7);
                lemma_mail_bytes_guis_one(message@, cid, c9);
                lemma_mail_bytes_guis_one(message@, cid, cl);
                if cid == client_id {
                    assert(self.clients@[j].1.output@ =~= cl.output@ + encode_utf8(response@));
                } else {
                    assert(c7 == cl);
                    assert(self.clients@[j].1.output@ =~= cl.output@ + mail_bytes(seq![to_guis(message@)], cid, cl));
                }
            }
        }
    }

    /// Where the eggs of team `team_name` are, in order.
    fn team_egg_positions(&self, team_name: &str) -> (positions: Vec<usize>)
        ensures
            positions@.len() == team_eggs(self.eggs@, team_name@).len(),
            forall|m: int|
                0 <= m < positions@.len() ==> (#[trigger] positions@[m]) < self.eggs@.len()
                    && self.eggs@[positions@[m] as int].team_name@ == team_name@,
    {
        let mut positions: Vec<usize> = Vec::new();
        let mut k: usize = 0;
        while k < self.eggs.len()
            invariant
                k <= self.eggs@.len(),
                positions@.len() == team_eggs(self.eggs@.take(k as int), team_name@).len(),
                forall|m: int|
                    0 <= m < positions@.len() ==> (#[trigger] positions@[m]) < k
                        && self.eggs@[positions@[m] as int].team_name@ == team_name@,
            decreases self.eggs@.len() - k,
        {
            assert(self.eggs@.take(k + 1).drop_last() =~= self.eggs@.take(k as int));
            if same_text(self.eggs[k].team_name.as_str(), team_name) {
                positions.push(k);
            }
            k = k + 1;
        }
        assert(self.eggs@.take(k as int) =~= self.eggs@);
        positions
    }

    /// Tells client `client_id` that it is refused.
    fn reject_authentication(&mut self, client_id: ClientId)
        requires
            old(self).wf(),
        ensures
            final(self).wf(),
            final(self).only_sent(*old(self), seq![to_client(client_id, KO_RESPONSE@)]),
    {
        let ghost start = *self;
        self.queue_to_client(client_id, KO_RESPONSE);
        proof {
            lemma_wf_only_sent(start, *self, seq![to_client(client_id, KO_RESPONSE@)]);
        }
    }

    /// Client `client_id` asks to play for team `team_name` at `now`: it
    /// hatches from one of the team's eggs, picked at random, facing a
    /// random way; an unknown client or team, or a team without eggs, is
    /// refused with `ko`. Returns whether it joined.
    pub fn authenticate_ai(&mut self, client_id: ClientId, team_name: &str, now: u64) -> (joined: bool)
        requires
            old(self).wf(),
            old(self).next_player_id < usize::MAX,
        ensures
            final(self).wf(),
            ai_authenticated(*old(self), *final(self), client_id, team_name@, now, joined),
    {
        let ghost start = *self;
        if self.find_client(client_id).is_none() || !self.has_team(team_name) {
            self.reject_authentication(client_id);
            return false;
        }
        let positions = self.team_egg_positions(team_name);
        let e = match random_choice(&positions) {
            Some(e) => e,
            None => {
                self.reject_authentication(client_id);
                return false;
            },
        };
        proof {
            let m = choose|m: int| 0 <= m < positions@.len() && positions@[m] == e;
            assert(e < self.eggs@.len() && self.eggs@[e as int].team_name@ == team_name@);
        }
        let orientation = random_orientation();
        self.hatch_player(client_id, e, orientation, now);
        proof {
            assert(ai_joined(start, *self, client_id, e as int, orientation, now));
        }
        true
    }
}


} // verus!

//! Incantations: players of one level, gathered on a tile holding the
//! right stones, rise to the next level together.
use vstd::prelude::*;

use crate::client::{Client, ClientId};
use crate::command::{ActiveCommand, Command};
use crate::constants::{ELEVATION_UNDERWAY_RESPONSE, INCANTATION_TIME_UNITS, KO_RESPONSE};
use crate::entities::Player;
use crate::game::{
    delivered, lemma_delivered_chain, lemma_delivered_nothing, lemma_player_position_is,
    lemma_player_position_none, lemma_player_unique, lemma_token_of_same_ids, lemma_wf_only_sent,
    player_position, strictly_increasing, to_client, to_guis, token_of, GameState, Mail,
};
use crate::gui_messages::{pic, pic_text, pie, pie_text};
use crate::timing::duration_nanos;
use crate::world::Inventory;

verus! {

/// An incantation under way.
#[derive(Debug)]
pub struct Incantation {
    id: usize,
    initiator_id: usize,
    participant_ids: Vec<usize>,
    x: usize,
    y: usize,
    level: usize,
}

impl Incantation {
    /// Its identifier.
    pub closed spec fn spec_id(self) -> usize {
        self.id
    }

    /// The player who started it.
    pub closed spec fn spec_initiator(self) -> usize {
        self.initiator_id
    }

    /// The players frozen by it when it started, initiator first.
    pub closed spec fn spec_participants(self) -> Seq<usize> {
        self.participant_ids@
    }

    /// Column of its tile.
    pub closed spec fn spec_x(self) -> usize {
        self.x
    }

    /// Row of its tile.
    pub closed spec fn spec_y(self) -> usize {
        self.y
    }

    /// The level its participants rise from.
    pub closed spec fn spec_level(self) -> usize {
        self.level
    }

    /// Its identifier.
    pub fn id(&self) -> (id: usize)
        ensures
            id == self.spec_id(),
    {
        self.id
    }

    /// The player who started it.
    pub fn initiator(&self) -> (initiator: usize)
        ensures
            initiator == self.spec_initiator(),
    {
        self.initiator_id
    }

    /// The players frozen by it when it started, initiator first.
    pub fn participants(&self) -> (ids: &Vec<usize>)
        ensures
            ids@ == self.spec_participants(),
    {
        &self.participant_ids
    }

    /// Column of its tile.
    pub fn x(&self) -> (x: usize)
        ensures
            x == self.spec_x(),
    {
        self.x
    }

    /// Row of its tile.
    pub fn y(&self) -> (y: usize)
        ensures
            y == self.spec_y(),
    {
        self.y
    }

    /// The level its participants rise from.
    pub fn level(&self) -> (level: usize)
        ensures
            level == self.spec_level(),
    {
        self.level
    }
}

/// What an incantation from one level needs: a number of players of that
/// level, and stones on the tile.
#[derive(Clone, Copy)]
pub struct IncantationRequirement {
    pub players: usize,
    /// Stones needed on the tile; never food.
    pub stones: Inventory,
}

/// Stones as (linemate, deraumere, sibur, mendiane, phiras, thystame).
pub open spec fn stones(
    linemate: usize,
    deraumere: usize,
    sibur: usize,
    mendiane: usize,
    phiras: usize,
    thystame: usize,
) -> Inventory {
    Inventory { food: 0, linemate, deraumere, sibur, mendiane, phiras, thystame }
}

/// The requirement of an incantation from `level`; none from the highest
/// level or an unknown one.
pub open spec fn requirement_for(level: nat) -> Option<IncantationRequirement> {
    if level == 1 {
        Some(IncantationRequirement { players: 1, stones: stones(1, 0, 0, 0, 0, 0) })
    } else if level == 2 {
        Some(IncantationRequirement { players: 2, stones: stones(1, 1, 1, 0, 0, 0) })
    } else if level == 3 {
        Some(IncantationRequirement { players: 2, stones: stones(2, 0, 1, 0, 2, 0) })
    } else if level == 4 {
        Some(IncantationRequirement { players: 4, stones: stones(1, 1, 2, 0, 1, 0) })
    } else if level == 5 {
        Some(IncantationRequirement { players: 4, stones: stones(1, 2, 1, 3, 0, 0) })
    } else if level == 6 {
        Some(IncantationRequirement { players: 6, stones: stones(1, 2, 3, 0, 1, 0) })
    } else if level == 7 {
        Some(IncantationRequirement { players: 6, stones: stones(2, 2, 2, 2, 2, 1) })
    } else {
        None
    }
}

/// The requirement of an incantation from `level`.
pub fn incantation_requirement(level: usize) -> (requirement: Option<IncantationRequirement>)
    ensures
        requirement == requirement_for(level as nat),
{
    let values: (usize, [usize; 6]) = if level == 1 {
        (1, [1, 0, 0, 0, 0, 0])
    } else if level == 2 {
        (2, [1, 1, 1, 0, 0, 0])
    } else if level == 3 {
        (2, [2, 0, 1, 0, 2, 0])
    } else if level == 4 {
        (4, [1, 1, 2, 0, 1, 0])
    } else if level == 5 {
        (4, [1, 2, 1, 3, 0, 0])
    } else if level == 6 {
        (6, [1, 2, 3, 0, 1, 0])
    } else if level == 7 {
        (6, [2, 2, 2, 2, 2, 1])
    } else {
        return None;
    };
    let counts = values.1;
    Some(
        IncantationRequirement {
            players: values.0,
            stones: Inventory {
                food: 0,
                linemate: counts[0],
                deraumere: counts[1],
                sibur: counts[2],
                mendiane: counts[3],
                phiras: counts[4],
                thystame: counts[5],
            },
        },
    )
}

/// The tile holds at least the stones of `requirement`.
pub open spec fn holds_stones(tile: Inventory, requirement: IncantationRequirement) -> bool {
    &&& tile.linemate >= requirement.stones.linemate
    &&& tile.deraumere >= requirement.stones.deraumere
    &&& tile.sibur >= requirement.stones.sibur
    &&& tile.mendiane >= requirement.stones.mendiane
    &&& tile.phiras >= requirement.stones.phiras
    &&& tile.thystame >= requirement.stones.thystame
}

/// The tile once the stones of `requirement` are taken from it.
pub open spec fn without_stones(tile: Inventory, requirement: IncantationRequirement) -> Inventory {
    Inventory {
        food: tile.food,
        linemate: (tile.linemate - requirement.stones.linemate) as usize,
        deraumere: (tile.deraumere - requirement.stones.deraumere) as usize,
        sibur: (tile.sibur - requirement.stones.sibur) as usize,
        mendiane: (tile.mendiane - requirement.stones.mendiane) as usize,
        phiras: (tile.phiras - requirement.stones.phiras) as usize,
        thystame: (tile.thystame - requirement.stones.thystame) as usize,
    }
}

/// Player `p` can join an incantation from `level` on tile (`x`, `y`):
/// it stands there, has that level, and is not frozen.
pub open spec fn can_join(p: Player, x: usize, y: usize, level: usize) -> bool {
    p.x == x && p.y == y && p.level == level && p.frozen_by is None
}

/// The players of `players`, in order, who can join an incantation from
/// `level` on (`x`, `y`).
pub open spec fn joiners(players: Seq<Player>, x: usize, y: usize, level: usize) -> Seq<usize>
    decreases players.len(),
{
    if players.len() == 0 {
        Seq::empty()
    } else {
        let earlier = joiners(players.drop_last(), x, y, level);
        if can_join(players.last(), x, y, level) {
            earlier.push(players.last().id)
        } else {
            earlier
        }
    }
}

/// Position of the first `value` in `ids`.
pub open spec fn index_of(ids: Seq<usize>, value: usize) -> Option<int>
    decreases ids.len(),
{
    if ids.len() == 0 {
        None
    } else if ids[0] == value {
        Some(0)
    } else {
        match index_of(ids.drop_first(), value) {
            Some(i) => Some(i + 1),
            None => None,
        }
    }
}

/// `ids` with the first `initiator` swapped into the first place.
pub open spec fn initiator_first(ids: Seq<usize>, initiator: usize) -> Seq<usize> {
    match index_of(ids, initiator) {
        Some(i) => ids.update(0, ids[i]).update(i, ids[0]),
        None => ids,
    }
}

/// Players with strictly increasing identifiers give joiners with strictly
/// increasing identifiers.
proof fn lemma_joiners_increasing(players: Seq<Player>, x: usize, y: usize, level: usize)
    requires
        strictly_increasing(players.map_values(|p: Player| p.id)),
    ensures
        strictly_increasing(joiners(players, x, y, level)),
        forall|k: int| 0 <= k < joiners(players, x, y, level).len() ==> exists|j: int|
            0 <= j < players.len() && players[j].id == #[trigger] joiners(players, x, y, level)[k],
    decreases players.len(),
{
    if players.len() > 0 {
        let rest = players.drop_last();
        assert(rest.map_values(|p: Player| p.id) =~= players.map_values(|p: Player| p.id).drop_last());
        lemma_joiners_increasing(rest, x, y, level);
        let earlier = joiners(rest, x, y, level);
        let ids = players.map_values(|p: Player| p.id);
        assert forall|k: int| 0 <= k < earlier.len() implies earlier[k] < players.last().id by {
            let j = choose|j: int| 0 <= j < rest.len() && rest[j].id == earlier[k];
            assert(ids[j] == rest[j].id);
            assert(ids[players.len() - 1] == players.last().id);
        }
        let all = joiners(players, x, y, level);
        assert forall|k: int| 0 <= k < all.len() implies exists|j: int|
            0 <= j < players.len() && players[j].id == #[trigger] all[k] by {
            if k < earlier.len() {
                let j = choose|j: int| 0 <= j < rest.len() && rest[j].id == earlier[k];
                assert(players[j] == rest[j]);
            } else {
                assert(players[players.len() - 1].id == all[k]);
            }
        }
    }
}

/// Swapping the initiator into the first place keeps a list free of duplicates.
proof fn lemma_initiator_first_distinct(ids: Seq<usize>, initiator: usize)
    requires
        ids.no_duplicates(),
    ensures
        initiator_first(ids, initiator).no_duplicates(),
        initiator_first(ids, initiator).len() == ids.len(),
        forall|v: usize| initiator_first(ids, initiator).contains(v) <==> ids.contains(v),
{
    match index_of(ids, initiator) {
        Some(i) => {
            lemma_index_of_found(ids, initiator, i);
            let r = initiator_first(ids, initiator);
            assert forall|a: int, b: int| 0 <= a < r.len() && 0 <= b < r.len() && a != b implies r[a] != r[b] by {
                let pa = if a == 0 { i } else if a == i { 0 } else { a };
                let pb = if b == 0 { i } else if b == i { 0 } else { b };
                assert(r[a] == ids[pa]);
                assert(r[b] == ids[pb]);
            }
            assert forall|v: usize| r.contains(v) <==> ids.contains(v) by {
                if r.contains(v) {
                    let a = choose|a: int| 0 <= a < r.len() && r[a] == v;
                    let pa = if a == 0 { i } else if a == i { 0 } else { a };
                    assert(ids[pa] == v);
                }
                if ids.contains(v) {
                    let a = choose|a: int| 0 <= a < ids.len() && ids[a] == v;
                    let pa = if a == 0 { i } else if a == i { 0 } else { a };
                    assert(r[pa] == v);
                }
            }
        },
        None => {},
    }
}

proof fn lemma_index_of_found(ids: Seq<usize>, value: usize, i: int)
    requires
        index_of(ids, value) == Some(i),
    ensures
        0 <= i < ids.len(),
        ids[i] == value,
    decreases ids.len(),
{
    if ids.len() > 0 && ids[0] != value {
        lemma_index_of_found(ids.drop_first(), value, i - 1);
    }
}

/// Swaps the first `initiator_id` of `participant_ids` into the first place.
pub fn move_initiator_to_front(participant_ids: &mut Vec<usize>, initiator_id: usize)
    ensures
        final(participant_ids)@ == initiator_first(old(participant_ids)@, initiator_id),
{
    let ghost ids = participant_ids@;
    let mut position: usize = 0;
    assert(ids.skip(0) =~= ids);
    while position < participant_ids.len()
        invariant
            participant_ids@ == ids,
            ids == old(participant_ids)@,
            position <= ids.len(),
            index_of(ids, initiator_id) == match index_of(ids.skip(position as int), initiator_id) {
                Some(k) => Some(k + position),
                None => None,
            },
        decreases ids.len() - position,
    {
        if participant_ids[position] == initiator_id {
            proof {
                assert(ids.skip(position as int)[0] == initiator_id);
                assert(index_of(ids, initiator_id) == Some(position as int));
                lemma_index_of_found(ids, initiator_id, position as int);
            }
            let first = participant_ids[0];
            let found = participant_ids[position];
            participant_ids.set(0, found);
            participant_ids.set(position, first);
            assert(participant_ids@ =~= ids.update(0, ids[position as int]).update(position as int, ids[0]));
            return;
        }
        assert(ids.skip(position as int).drop_first() =~= ids.skip(position + 1));
        position = position + 1;
    }
    assert(ids.skip(position as int).len() == 0);
}

/// Where, from which level and with whom an incantation starts.
struct IncantationStart {
    x: usize,
    y: usize,
    level: usize,
    participant_ids: Vec<usize>,
}

/// What the participants `ids`, in order, are told when an incantation
/// starts: each one that has a client hears `Elevation underway`.
pub open spec fn underway_mail(clients: Seq<(ClientId, Client)>, ids: Seq<usize>) -> Seq<Mail>
    decreases ids.len(),
{
    if ids.len() == 0 {
        Seq::empty()
    } else {
        let earlier = underway_mail(clients, ids.drop_last());
        match token_of(clients, ids.last()) {
            Some(token) => earlier.push(to_client(token, ELEVATION_UNDERWAY_RESPONSE@)),
            None => earlier,
        }
    }
}

/// The players once those of `ids` are frozen by incantation `incantation_id`.
pub open spec fn frozen_players(players: Seq<Player>, ids: Seq<usize>, incantation_id: usize) -> Seq<Player> {
    players.map_values(|p: Player| if ids.contains(p.id) {
        Player { frozen_by: Some(incantation_id), ..p }
    } else {
        p
    })
}

impl GameState {
    /// The incantation player `initiator` would start now, as its tile, its
    /// level and its participants (the initiator first): none when the
    /// player is gone, its level has no incantation, too few players can
    /// join or the tile lacks stones.
    pub open spec fn planned_incantation(self, initiator: usize) -> Option<(usize, usize, usize, Seq<usize>)> {
        match player_position(self.players@, initiator) {
            None => None,
            Some(i) => {
                let p = self.players@[i];
                match requirement_for(p.level as nat) {
                    None => None,
                    Some(requirement) => {
                        let ids = initiator_first(joiners(self.players@, p.x, p.y, p.level), initiator);
                        if ids.len() >= requirement.players && self.map.contains(p.x as int, p.y as int)
                            && holds_stones(self.map.tile(p.x as int, p.y as int), requirement) {
                            Some((p.x, p.y, p.level, ids))
                        } else {
                            None
                        }
                    },
                }
            },
        }
    }

    /// The tile at (`x`, `y`) holds the stones of `requirement`.
    fn tile_has_requirement(&self, x: usize, y: usize, requirement: IncantationRequirement) -> (holds: bool)
        requires
            self.map.wf(),
        ensures
            holds == (self.map.contains(x as int, y as int) && holds_stones(self.map.tile(x as int, y as int), requirement)),
    {
        match self.map.get_tile(x, y) {
            None => false,
            Some(tile) => {
                tile.linemate >= requirement.stones.linemate
                    && tile.deraumere >= requirement.stones.deraumere
                    && tile.sibur >= requirement.stones.sibur
                    && tile.mendiane >= requirement.stones.mendiane
                    && tile.phiras >= requirement.stones.phiras
                    && tile.thystame >= requirement.stones.thystame
            },
        }
    }

    /// The players who can join an incantation from `level` on `position`,
    /// in order, `initiator_id` swapped into the first place.
    fn collect_participants(&self, initiator_id: usize, position: (usize, usize), level: usize) -> (ids: Vec<usize>)
        ensures
            ids@ == initiator_first(joiners(self.players@, position.0, position.1, level), initiator_id),
    {
        let mut ids: Vec<usize> = Vec::new();
        let mut i: usize = 0;
        while i < self.players.len()
            invariant
                i <= self.players@.len(),
                ids@ == joiners(self.players@.take(i as int), position.0, position.1, level),
            decreases self.players@.len() - i,
        {
            assert(self.players@.take(i + 1).drop_last() =~= self.players@.take(i as int));
            assert(self.players@.take(i + 1).last() == self.players@[i as int]);
            let p = &self.players[i];
            if p.x == position.0 && p.y == position.1 && p.level == level && p.frozen_by.is_none() {
                ids.push(p.id);
            }
            i = i + 1;
        }
        assert(self.players@.take(self.players@.len() as int) =~= self.players@);
        move_initiator_to_front(&mut ids, initiator_id);
        ids
    }

    /// Enough participants, and the stones on the tile.
    pub(crate) fn incantation_conditions_are_met(
        &self,
        position: (usize, usize),
        participant_ids: &Vec<usize>,
        requirement: IncantationRequirement,
    ) -> (met: bool)
        requires
            self.map.wf(),
        ensures
            met == (participant_ids@.len() >= requirement.players && self.map.contains(position.0 as int, position.1 as int)
                && holds_stones(self.map.tile(position.0 as int, position.1 as int), requirement)),
    {
        participant_ids.len() >= requirement.players && self.tile_has_requirement(position.0, position.1, requirement)
    }

    /// The incantation player `initiator_id` would start now.
    fn prepare_incantation(&self, initiator_id: usize) -> (start: Option<IncantationStart>)
        requires
            self.map.wf(),
        ensures
            match self.planned_incantation(initiator_id) {
                None => start is None,
                Some(plan) => start matches Some(s) && s.x == plan.0 && s.y == plan.1 && s.level == plan.2
                    && s.participant_ids@ == plan.3,
            },
    {
        let i = self.find_player(initiator_id)?;
        let position = (self.players[i].x, self.players[i].y);
        let level = self.players[i].level;
        let requirement = incantation_requirement(level)?;
        let participant_ids = self.collect_participants(initiator_id, position, level);
        if !self.incantation_conditions_are_met(position, &participant_ids, requirement) {
            return None;
        }
        Some(IncantationStart { x: position.0, y: position.1, level, participant_ids })
    }
}

/// What a player is told through its client, if it has one.
pub open spec fn to_player_mail(clients: Seq<(ClientId, Client)>, player_id: usize, text: Seq<char>) -> Seq<Mail> {
    match token_of(clients, player_id) {
        Some(token) => seq![to_client(token, text)],
        None => Seq::empty(),
    }
}

/// The incantation `id` started by `initiator` with `plan`.
pub open spec fn started_incantation(
    incantation: Incantation,
    id: usize,
    initiator: usize,
    plan: (usize, usize, usize, Seq<usize>),
) -> bool {
    &&& incantation.spec_id() == id
    &&& incantation.spec_initiator() == initiator
    &&& incantation.spec_participants() == plan.3
    &&& incantation.spec_x() == plan.0
    &&& incantation.spec_y() == plan.1
    &&& incantation.spec_level() == plan.2
}

/// The command a client runs while its incantation lasts.
pub open spec fn incantation_command(finishes_at: u64, incantation_id: usize) -> ActiveCommand {
    ActiveCommand { command: Command::Incantation, finishes_at, incantation_id: Some(incantation_id) }
}

/// When an incantation started at `now` ends.
pub open spec fn incantation_end(now: u64, frequency: usize) -> u64 {
    let end = now + duration_nanos(INCANTATION_TIME_UNITS as nat, frequency as nat);
    if end > u64::MAX {
        u64::MAX
    } else {
        end as u64
    }
}

/// `after` is `before` once incantation `plan` was launched by
/// `initiator`, for `client_id`, at `now`: the next incantation identifier
/// is taken, the participants are frozen and told, the graphical clients
/// see `pic`, the incantation is recorded, and the client runs it until it
/// ends.
pub open spec fn launched(
    before: GameState,
    after: GameState,
    client_id: ClientId,
    initiator: usize,
    plan: (usize, usize, usize, Seq<usize>),
    now: u64,
) -> bool {
    let id = before.next_incantation_id;
    let mail = underway_mail(before.clients@, plan.3) + seq![to_guis(pic_text(plan.0 as nat, plan.1 as nat, plan.2 as nat, plan.3))];
    &&& after.next_incantation_id == id + 1
    &&& after.players@ == frozen_players(before.players@, plan.3, id)
    &&& after.incantations@.len() == before.incantations@.len() + 1
    &&& after.incantations@.drop_last() == before.incantations@
    &&& started_incantation(after.incantations@.last(), id, initiator, plan)
    &&& after.clients@.len() == before.clients@.len()
    &&& forall|i: int|
        #![trigger after.clients@[i]]
        0 <= i < before.clients@.len() ==> {
            let (cid, c) = before.clients@[i];
            let a = after.clients@[i].1;
            &&& after.clients@[i].0 == cid
            &&& a.output@ == c.output@ + mail_bytes_of(mail, cid, c)
            &&& a.input == c.input
            &&& a.output_offset == c.output_offset
            &&& a.state == c.state
            &&& a.team_name == c.team_name
            &&& a.player_id == c.player_id
            &&& a.queue == c.queue
            &&& a.close_after_flush == c.close_after_flush
            &&& a.active == if cid == client_id {
                Some(incantation_command(incantation_end(now, before.frequency), id))
            } else {
                c.active
            }
        }
    &&& after.eggs@ == before.eggs@
    &&& after.teams@ == before.teams@
    &&& after.map == before.map
    &&& after.frequency == before.frequency
    &&& after.next_client_id == before.next_client_id
    &&& after.next_player_id == before.next_player_id
    &&& after.next_egg_id == before.next_egg_id
    &&& after.next_resource_spawn == before.next_resource_spawn
    &&& after.winner == before.winner
}

/// The bytes of `mail` for a client.
pub open spec fn mail_bytes_of(mail: Seq<Mail>, id: ClientId, client: Client) -> Seq<u8> {
    crate::game::mail_bytes(mail, id, client)
}

impl GameState {
    /// Queues `response` to the client playing `player_id`, if any.
    pub(crate) fn queue_to_player(&mut self, player_id: usize, response: &str)
        requires
            old(self).wf(),
        ensures
            final(self).wf(),
            final(self).only_sent(*old(self), to_player_mail(old(self).clients@, player_id, response@)),
    {
        match self.player_token(player_id) {
            Some(client_id) => {
                self.queue_to_client(client_id, response);
                proof {
                    lemma_wf_only_sent(*old(self), *self, seq![to_client(client_id, response@)]);
                }
            },
            None => {
                proof {
                    lemma_delivered_nothing(self.clients@);
                }
            },
        }
    }

    /// Hands out a new incantation identifier.
    fn allocate_incantation_id(&mut self) -> (id: usize)
        requires
            old(self).next_incantation_id < usize::MAX,
        ensures
            id == old(self).next_incantation_id,
            *final(self) == (GameState { next_incantation_id: (id + 1) as usize, ..*old(self) }),
    {
        let id = self.next_incantation_id;
        self.next_incantation_id = self.next_incantation_id + 1;
        id
    }

    /// Freezes the participants by incantation `incantation_id` and tells
    /// each one that the elevation is under way.
    fn freeze_participants(&mut self, incantation_id: usize, participant_ids: &Vec<usize>)
        requires
            old(self).wf(),
        ensures
            final(self).wf(),
            final(self).players@ == frozen_players(old(self).players@, participant_ids@, incantation_id),
            final(self).same_but_players(*old(self)),
            delivered(old(self).clients@, final(self).clients@, underway_mail(old(self).clients@, participant_ids@)),
    {
        let ghost start = *self;
        let mut k: usize = 0;
        proof {
            lemma_delivered_nothing(self.clients@);
            assert(participant_ids@.take(0) =~= Seq::<usize>::empty());
            assert(frozen_players(start.players@, Seq::empty(), incantation_id) =~= start.players@);
        }
        while k < participant_ids.len()
            invariant
                start.wf(),
                self.wf(),
                k <= participant_ids@.len(),
                self.players@ == frozen_players(start.players@, participant_ids@.take(k as int), incantation_id),
                self.same_but_players(start),
                self.player_ids() == start.player_ids(),
                delivered(start.clients@, self.clients@, underway_mail(start.clients@, participant_ids@.take(k as int))),
            decreases participant_ids@.len() - k,
        {
            let participant_id = participant_ids[k];
            let ghost taken = participant_ids@.take(k as int);
            let ghost next = participant_ids@.take(k + 1);
            assert(next =~= taken.push(participant_id));
            let ghost before_step = *self;
            match self.find_player(participant_id) {
                Some(i) => {
                    proof {
                        lemma_player_position_is(self.players@, participant_id, i as int);
                        assert(self.players@.map_values(|p: Player| p.id) =~= self.player_ids());
                        lemma_player_unique(self.players@, i as int);
                    }
                    self.players[i].frozen_by = Some(incantation_id);
                    proof {
                        assert(self.players@ =~= frozen_players(start.players@, next, incantation_id)) by {
                            assert forall|j: int| 0 <= j < self.players@.len() implies #[trigger] self.players@[j]
                                == frozen_players(start.players@, next, incantation_id)[j] by {
                                let _ = before_step.players@[j];
                                if j != i {
                                    assert(before_step.players@[j].id != participant_id);
                                    assert(next.contains(start.players@[j].id) == taken.contains(start.players@[j].id)) by {
                                        if next.contains(start.players@[j].id) {
                                            let w = choose|w: int| 0 <= w < next.len() && next[w] == start.players@[j].id;
                                            if w < taken.len() { assert(taken[w] == next[w]); }
                                        }
                                        if taken.contains(start.players@[j].id) {
                                            let w = choose|w: int| 0 <= w < taken.len() && taken[w] == start.players@[j].id;
                                            assert(next[w] == taken[w]);
                                        }
                                    }
                                } else {
                                    assert(next[k as int] == participant_id);
                                }
                            }
                        }
                        assert(self.player_ids() =~= start.player_ids()) by {
                            assert forall|j: int| 0 <= j < self.players@.len() implies #[trigger] self.player_ids()[j]
                                == before_step.player_ids()[j] by {
                                let _ = before_step.players@[j];
                            }
                        }
                        assert forall|j: int| 0 <= j < self.players@.len() implies (#[trigger] self.players@[j]).id
                            < self.next_player_id && self.map.contains(self.players@[j].x as int, self.players@[j].y as int) by {
                            let _ = before_step.players@[j];
                        }
                    }
                },
                None => {
                    proof {
                        assert(self.players@ =~= frozen_players(start.players@, next, incantation_id)) by {
                            assert forall|j: int| 0 <= j < self.players@.len() implies #[trigger] self.players@[j]
                                == frozen_players(start.players@, next, incantation_id)[j] by {
                                lemma_player_position_none(self.players@, participant_id, j);
                                assert(start.players@[j].id == self.players@[j].id || true);
                                let _ = start.players@[j];
                                assert(next.contains(start.players@[j].id) == taken.contains(start.players@[j].id)) by {
                                    if next.contains(start.players@[j].id) {
                                        let w = choose|w: int| 0 <= w < next.len() && next[w] == start.players@[j].id;
                                        if w < taken.len() { assert(taken[w] == next[w]); }
                                    }
                                    if taken.contains(start.players@[j].id) {
                                        let w = choose|w: int| 0 <= w < taken.len() && taken[w] == start.players@[j].id;
                                        assert(next[w] == taken[w]);
                                    }
                                }
                            }
                        }
                    }
                },
            }
            let ghost after_freeze = *self;
            self.queue_to_player(participant_id, ELEVATION_UNDERWAY_RESPONSE);
            proof {
                lemma_token_of_same_ids(start.clients@, after_freeze.clients@, participant_id);
                lemma_delivered_chain(start.clients@, after_freeze.clients@, self.clients@,
                    underway_mail(start.clients@, taken),
                    to_player_mail(after_freeze.clients@, participant_id, ELEVATION_UNDERWAY_RESPONSE@));
                assert(next.drop_last() =~= taken);
                assert(underway_mail(start.clients@, taken) + to_player_mail(after_freeze.clients@, participant_id, ELEVATION_UNDERWAY_RESPONSE@)
                    =~= underway_mail(start.clients@, next));
            }
            k = k + 1;
        }
        assert(participant_ids@.take(participant_ids@.len() as int) =~= participant_ids@);
    }
}

impl GameState {
    /// Records incantation `incantation_id` as the command that client
    /// `client_id` runs until `finishes_at`.
    fn schedule_incantation(&mut self, client_id: ClientId, incantation_id: usize, finishes_at: u64)
        requires
            old(self).wf(),
        ensures
            final(self).wf(),
            final(self).same_world(*old(self)),
            final(self).clients@.len() == old(self).clients@.len(),
            forall|i: int|
                #![trigger final(self).clients@[i]]
                0 <= i < old(self).clients@.len() ==> {
                    let (cid, c) = old(self).clients@[i];
                    let a = final(self).clients@[i].1;
                    &&& final(self).clients@[i].0 == cid
                    &&& a.output == c.output
                    &&& a.input == c.input
                    &&& a.output_offset == c.output_offset
                    &&& a.state == c.state
                    &&& a.team_name == c.team_name
                    &&& a.player_id == c.player_id
                    &&& a.queue == c.queue
                    &&& a.close_after_flush == c.close_after_flush
                    &&& a.active == if cid == client_id {
                        Some(incantation_command(finishes_at, incantation_id))
                    } else {
                        c.active
                    }
                },
    {
        let i = match self.find_client(client_id) {
            Some(i) => i,
            None => {
                proof {
                    assert forall|j: int| 0 <= j < self.clients@.len() implies self.clients@[j].0 != client_id by {
                        crate::game::lemma_client_position_none(self.clients@, client_id, j);
                    }
                }
                return;
            },
        };
        let ghost before = self.clients@;
        proof {
            crate::game::lemma_client_position_is(before, client_id, i as int);
        }
        let mut active = ActiveCommand::new(Command::Incantation, finishes_at);
        active.incantation_id = Some(incantation_id);
        self.clients[i].1.active = Some(active);
        proof {
            assert forall|j: int| 0 <= j < before.len() && j != i implies before[j].0 != client_id by {
                assert(before.map_values(|c: (ClientId, Client)| c.0.0) =~= old(self).client_ids());
                crate::game::lemma_client_ids_distinct(before, i as int, j);
            }
            assert(self.client_ids() =~= old(self).client_ids()) by {
                assert forall|j: int| 0 <= j < self.clients@.len() implies #[trigger] self.client_ids()[j]
                    == old(self).client_ids()[j] by {
                    let _ = before[j];
                }
            }
            assert forall|j: int| 0 <= j < self.clients@.len() implies (#[trigger] self.clients@[j]).0.0
                < self.next_client_id && self.clients@[j].1.queue@.len() <= crate::constants::MAX_PENDING_COMMANDS by {
                let _ = before[j];
            }
        }
    }

    /// Starts the incantation `start` of player `initiator_id` for client
    /// `client_id` at `now`.
    fn launch_incantation(&mut self, client_id: ClientId, initiator_id: usize, start: IncantationStart, now: u64)
        requires
            old(self).wf(),
            old(self).next_incantation_id < usize::MAX,
            start.participant_ids@.no_duplicates(),
        ensures
            final(self).wf(),
            launched(*old(self), *final(self), client_id, initiator_id,
                (start.x, start.y, start.level, start.participant_ids@), now),
    {
        let ghost s0 = *self;
        let ghost plan = (start.x, start.y, start.level, start.participant_ids@);
        let incantation_id = self.allocate_incantation_id();
        proof {
            crate::game::lemma_duration_bound(INCANTATION_TIME_UNITS as nat, self.frequency as nat);
        }
        let duration = self.duration(INCANTATION_TIME_UNITS);
        let finishes_at = now.saturating_add(duration);
        proof {
            assert(self.client_ids() =~= s0.client_ids());
            assert forall|j: int| 0 <= j < self.incantations@.len() implies (#[trigger] self.incantations@[j]).spec_id()
                < self.next_incantation_id by {
                let _ = s0.incantations@[j];
            }
        }
        let ghost s1 = *self;
        self.freeze_participants(incantation_id, &start.participant_ids);
        let ghost s2 = *self;
        let message = pic(start.x, start.y, start.level, start.participant_ids.as_slice());
        self.broadcast_to_guis(message.as_str());
        proof { lemma_wf_only_sent(s2, *self, seq![to_guis(message@)]); }
        let ghost s3 = *self;
        self.incantations.push(Incantation {
            id: incantation_id,
            initiator_id,
            participant_ids: start.participant_ids,
            x: start.x,
            y: start.y,
            level: start.level,
        });
        proof {
            assert(self.incantation_ids() =~= s3.incantation_ids().push(incantation_id));
            assert forall|a: int, b: int| 0 <= a < b < self.incantation_ids().len() implies self.incantation_ids()[a]
                < self.incantation_ids()[b] by {
                if b == s3.incantations@.len() {
                    let _ = s3.incantations@[a];
                }
            }
            assert forall|j: int| 0 <= j < self.incantations@.len() implies (#[trigger] self.incantations@[j]).spec_id()
                < self.next_incantation_id && self.incantations@[j].spec_participants().no_duplicates() by {
                if j < s3.incantations@.len() {
                    let _ = s3.incantations@[j];
                }
            }
        }
        let ghost s4 = *self;
        self.schedule_incantation(client_id, incantation_id, finishes_at);
        proof {
            let m1 = underway_mail(s1.clients@, plan.3);
            let m2 = seq![to_guis(pic_text(plan.0 as nat, plan.1 as nat, plan.2 as nat, plan.3))];
            assert(s1.clients@ == s0.clients@);
            lemma_delivered_chain(s1.clients@, s2.clients@, s3.clients@, m1, m2);
            assert(self.incantations@.drop_last() =~= s0.incantations@);
            assert forall|i: int| 0 <= i < s0.clients@.len() implies #[trigger] self.clients@[i].1.output@
                == s0.clients@[i].1.output@ + mail_bytes_of(m1 + m2, s0.clients@[i].0, s0.clients@[i].1) by {
                let _ = s3.clients@[i];
                let _ = s4.clients@[i];
            }
        }
    }

    /// `Incantation`, as it starts: when player `player_id` can start one,
    /// it does (see `launched`) and true comes back; otherwise `ko` to the
    /// client and false.
    pub fn begin_incantation(&mut self, client_id: ClientId, player_id: usize, now: u64) -> (started: bool)
        requires
            old(self).wf(),
            old(self).next_incantation_id < usize::MAX,
        ensures
            final(self).wf(),
            incantation_begun(*old(self), *final(self), client_id, player_id, now, started),
    {
        let start = match self.prepare_incantation(player_id) {
            Some(start) => start,
            None => {
                self.queue_to_client(client_id, KO_RESPONSE);
                proof { lemma_wf_only_sent(*old(self), *self, seq![to_client(client_id, KO_RESPONSE@)]); }
                return false;
            },
        };
        proof {
            let i = player_position(self.players@, player_id)->0;
            let p = self.players@[i];
            assert(self.players@.map_values(|q: Player| q.id) =~= self.player_ids());
            lemma_joiners_increasing(self.players@, p.x, p.y, p.level);
            let joined = joiners(self.players@, p.x, p.y, p.level);
            assert(joined.no_duplicates()) by {
                assert forall|a: int, b: int| 0 <= a < joined.len() && 0 <= b < joined.len() && a != b implies joined[a] != joined[b] by {
                    if a < b { assert(joined[a] < joined[b]); } else { assert(joined[b] < joined[a]); }
                }
            }
            lemma_initiator_first_distinct(joined, player_id);
        }
        self.launch_incantation(client_id, player_id, start, now);
        true
    }
}

/// The players once those of `ids` still frozen by `incantation_id` are
/// released.
pub open spec fn released_players(players: Seq<Player>, ids: Seq<usize>, incantation_id: usize) -> Seq<Player> {
    players.map_values(|p: Player| if ids.contains(p.id) && p.frozen_by == Some(incantation_id) {
        Player { frozen_by: None, ..p }
    } else {
        p
    })
}

/// What the participants `ids`, in order, are told when an incantation
/// fails: `ko` to each one that has a client, but `excluded`.
pub open spec fn failure_mail(clients: Seq<(ClientId, Client)>, ids: Seq<usize>, excluded: Option<usize>) -> Seq<Mail>
    decreases ids.len(),
{
    if ids.len() == 0 {
        Seq::empty()
    } else {
        let earlier = failure_mail(clients, ids.drop_last(), excluded);
        if excluded == Some(ids.last()) {
            earlier
        } else {
            earlier + to_player_mail(clients, ids.last(), KO_RESPONSE@)
        }
    }
}

/// Everything about the world but the players is as in `before`, and so
/// are the clients but for their output.
pub open spec fn only_players_and_mail(before: GameState, after: GameState, mail: Seq<Mail>) -> bool {
    &&& delivered(before.clients@, after.clients@, mail)
    &&& after.same_but_players(before)
    &&& after.player_ids() == before.player_ids()
}

/// Changing players without changing their identifiers or positions, and
/// queuing messages, keeps the state consistent.
pub(crate) proof fn lemma_wf_players_kept(before: GameState, after: GameState, mail: Seq<Mail>)
    requires
        before.wf(),
        only_players_and_mail(before, after, mail),
        forall|j: int| 0 <= j < after.players@.len() ==> (#[trigger] after.players@[j]).x == before.players@[j].x
            && after.players@[j].y == before.players@[j].y,
    ensures
        after.wf(),
{
    lemma_wf_only_sent(before, GameState { players: before.players, ..after }, mail);
    assert forall|j: int| 0 <= j < after.players@.len() implies (#[trigger] after.players@[j]).id
        < after.next_player_id && after.map.contains(after.players@[j].x as int, after.players@[j].y as int) by {
        let _ = before.players@[j];
        assert(after.player_ids()[j] == before.player_ids()[j]);
    }
}

impl GameState {
    /// Releases player `player_id` if incantation `incantation_id` froze it.
    pub(crate) fn unfreeze_participant(&mut self, player_id: usize, incantation_id: usize)
        requires
            old(self).wf(),
        ensures
            final(self).wf(),
            final(self).players@ == released_players(old(self).players@, seq![player_id], incantation_id),
            only_players_and_mail(*old(self), *final(self), Seq::empty()),
    {
        proof { lemma_delivered_nothing(self.clients@); }
        let i = match self.find_player(player_id) {
            Some(i) => i,
            None => {
                proof {
                    assert forall|j: int| 0 <= j < self.players@.len() implies #[trigger] self.players@[j]
                        == released_players(self.players@, seq![player_id], incantation_id)[j] by {
                        lemma_player_position_none(self.players@, player_id, j);
                        assert(!seq![player_id].contains(self.players@[j].id)) by {
                            if seq![player_id].contains(self.players@[j].id) {
                                assert(seq![player_id][0] == player_id);
                            }
                        }
                    }
                    assert(self.players@ =~= released_players(self.players@, seq![player_id], incantation_id));
                }
                return;
            },
        };
        let ghost before = *self;
        proof {
            lemma_player_position_is(self.players@, player_id, i as int);
            assert(self.players@.map_values(|p: Player| p.id) =~= self.player_ids());
            lemma_player_unique(self.players@, i as int);
        }
        if self.players[i].frozen_by == Some(incantation_id) {
            self.players[i].frozen_by = None;
        }
        proof {
            assert forall|j: int| 0 <= j < self.players@.len() implies #[trigger] self.players@[j]
                == released_players(before.players@, seq![player_id], incantation_id)[j] by {
                let _ = before.players@[j];
                assert(seq![player_id].contains(before.players@[j].id) == (before.players@[j].id == player_id)) by {
                    if seq![player_id].contains(before.players@[j].id) {
                        assert(seq![player_id][0] == player_id);
                    }
                    if before.players@[j].id == player_id {
                        assert(seq![player_id][0] == player_id);
                    }
                }
            }
            assert(self.players@ =~= released_players(before.players@, seq![player_id], incantation_id));
            assert(self.player_ids() =~= before.player_ids()) by {
                assert forall|j: int| 0 <= j < self.players@.len() implies #[trigger] self.player_ids()[j]
                    == before.player_ids()[j] by {
                    let _ = before.players@[j];
                }
            }
            lemma_wf_players_kept(before, *self, Seq::empty());
        }
    }

    /// Ends a failed incantation: its participants are released and told
    /// `ko`, but `excluded_player_id`; the graphical clients see `pie` with
    /// failure.
    pub(crate) fn fail_incantation_record(&mut self, incantation: Incantation, excluded_player_id: Option<usize>)
        requires
            old(self).wf(),
        ensures
            final(self).wf(),
            final(self).players@ == released_players(old(self).players@, incantation.spec_participants(), incantation.spec_id()),
            only_players_and_mail(*old(self), *final(self),
                failure_mail(old(self).clients@, incantation.spec_participants(), excluded_player_id)
                    + seq![to_guis(pie_text(incantation.spec_x() as nat, incantation.spec_y() as nat, false))]),
    {
        let ghost start = *self;
        let ids = &incantation.participant_ids;
        let mut k: usize = 0;
        proof {
            lemma_delivered_nothing(self.clients@);
            assert(ids@.take(0) =~= Seq::<usize>::empty());
            assert(released_players(start.players@, Seq::empty(), incantation.id) =~= start.players@);
        }
        while k < ids.len()
            invariant
                start.wf(),
                self.wf(),
                k <= ids@.len(),
                self.players@ == released_players(start.players@, ids@.take(k as int), incantation.id),
                only_players_and_mail(start, *self, failure_mail(start.clients@, ids@.take(k as int), excluded_player_id)),
            decreases ids@.len() - k,
        {
            let participant_id = ids[k];
            let ghost taken = ids@.take(k as int);
            let ghost next = ids@.take(k + 1);
            assert(next =~= taken.push(participant_id));
            let ghost s0 = *self;
            self.unfreeze_participant(participant_id, incantation.id);
            proof {
                assert(self.players@ =~= released_players(start.players@, next, incantation.id)) by {
                    assert forall|j: int| 0 <= j < self.players@.len() implies #[trigger] self.players@[j]
                        == released_players(start.players@, next, incantation.id)[j] by {
                        let _ = s0.players@[j];
                        let p = start.players@[j];
                        assert(next.contains(p.id) == (taken.contains(p.id) || p.id == participant_id)) by {
                            if next.contains(p.id) {
                                let w = choose|w: int| 0 <= w < next.len() && next[w] == p.id;
                                if w < taken.len() { assert(taken[w] == next[w]); }
                            }
                            if taken.contains(p.id) {
                                let w = choose|w: int| 0 <= w < taken.len() && taken[w] == p.id;
                                assert(next[w] == taken[w]);
                            }
                            if p.id == participant_id {
                                assert(next[k as int] == participant_id);
                            }
                        }
                        assert(seq![participant_id].contains(p.id) == (p.id == participant_id)) by {
                            if seq![participant_id].contains(p.id) {
                                assert(seq![participant_id][0] == participant_id);
                            }
                            if p.id == participant_id {
                                assert(seq![participant_id][0] == participant_id);
                            }
                        }
                    }
                }
            }
            let ghost s1 = *self;
            let excluded = match excluded_player_id {
                Some(excluded) => excluded == participant_id,
                None => false,
            };
            if !excluded {
                self.queue_to_player(participant_id, KO_RESPONSE);
                proof {
                    lemma_delivered_chain(start.clients@, s1.clients@, self.clients@,
                        failure_mail(start.clients@, taken, excluded_player_id),
                        to_player_mail(s1.clients@, participant_id, KO_RESPONSE@));
                    lemma_token_of_same_ids(start.clients@, s1.clients@, participant_id);
                }
            }
            proof {
                assert(next.drop_last() =~= taken);
                assert(self.player_ids() =~= start.player_ids());
            }
            k = k + 1;
        }
        assert(ids@.take(ids@.len() as int) =~= ids@);
        let ghost s2 = *self;
        let message = pie(incantation.x, incantation.y, false);
        self.broadcast_to_guis(message.as_str());
        proof {
            lemma_delivered_chain(start.clients@, s2.clients@, self.clients@,
                failure_mail(start.clients@, ids@, excluded_player_id), seq![to_guis(message@)]);
            lemma_wf_only_sent(s2, *self, seq![to_guis(message@)]);
        }
    }
}

/// Position of the first incantation called `id`.
pub open spec fn incantation_position(incantations: Seq<Incantation>, id: usize) -> Option<int>
    decreases incantations.len(),
{
    if incantations.len() == 0 {
        None
    } else if incantations[0].spec_id() == id {
        Some(0)
    } else {
        match incantation_position(incantations.drop_first(), id) {
            Some(i) => Some(i + 1),
            None => None,
        }
    }
}

/// What a client runs once incantation `incantation`, whose initiator
/// plays through client `token` if any, is cancelled: client `client_id`
/// stops running it if it did.
pub open spec fn after_clearing(
    token: Option<ClientId>,
    client_id: ClientId,
    active: Option<ActiveCommand>,
    incantation_id: usize,
) -> Option<ActiveCommand> {
    if token == Some(client_id) && active is Some && active->0.incantation_id == Some(incantation_id) {
        None
    } else {
        active
    }
}

/// The clients of `before` once `mail` was queued and each one's running
/// command became `active(i)`; nothing else about them changed.
pub open spec fn clients_changed(
    before: Seq<(ClientId, Client)>,
    after: Seq<(ClientId, Client)>,
    mail: Seq<Mail>,
    active: spec_fn(int) -> Option<ActiveCommand>,
) -> bool {
    &&& after.len() == before.len()
    &&& forall|i: int|
        #![trigger after[i]]
        0 <= i < before.len() ==> {
            let (cid, c) = before[i];
            let a = after[i].1;
            &&& after[i].0 == cid
            &&& a.output@ == c.output@ + crate::game::mail_bytes(mail, cid, c)
            &&& a.input == c.input
            &&& a.output_offset == c.output_offset
            &&& a.state == c.state
            &&& a.team_name == c.team_name
            &&& a.player_id == c.player_id
            &&& a.queue == c.queue
            &&& a.close_after_flush == c.close_after_flush
            &&& a.active == active(i)
        }
}

impl GameState {
    /// The client of the initiator of `incantation` stops running it.
    pub(crate) fn clear_active_incantation(&mut self, incantation: &Incantation)
        requires
            old(self).wf(),
        ensures
            final(self).wf(),
            final(self).same_world(*old(self)),
            clients_changed(old(self).clients@, final(self).clients@, Seq::empty(),
                |i: int| after_clearing(token_of(old(self).clients@, incantation.spec_initiator()),
                    old(self).clients@[i].0, old(self).clients@[i].1.active, incantation.spec_id())),
    {
        let ghost before = self.clients@;
        let ghost token = token_of(before, incantation.initiator_id);
        proof {
            assert forall|j: int| 0 <= j < before.len() implies #[trigger] before[j].1.output@
                == before[j].1.output@ + crate::game::mail_bytes(Seq::empty(), before[j].0, before[j].1) by {
                assert(before[j].1.output@ =~= before[j].1.output@ + Seq::<u8>::empty());
            }
        }
        let client_id = match self.player_token(incantation.initiator_id) {
            Some(client_id) => client_id,
            None => return,
        };
        let i = match self.find_client(client_id) {
            Some(i) => i,
            None => {
                proof {
                    assert forall|j: int| 0 <= j < before.len() implies before[j].0 != client_id by {
                        crate::game::lemma_client_position_none(before, client_id, j);
                    }
                }
                return;
            },
        };
        proof {
            crate::game::lemma_client_position_is(before, client_id, i as int);
            assert forall|j: int| 0 <= j < before.len() && j != i implies before[j].0 != client_id by {
                assert(before.map_values(|c: (ClientId, Client)| c.0.0) =~= old(self).client_ids());
                crate::game::lemma_client_ids_distinct(before, i as int, j);
            }
        }
        let belongs = match &self.clients[i].1.active {
            Some(active) => active.incantation_id == Some(incantation.id),
            None => false,
        };
        if belongs {
            self.clients[i].1.active = None;
        }
        proof {
            assert(self.client_ids() =~= old(self).client_ids()) by {
                assert forall|j: int| 0 <= j < self.clients@.len() implies #[trigger] self.client_ids()[j]
                    == old(self).client_ids()[j] by {
                    let _ = before[j];
                }
            }
            assert forall|j: int| 0 <= j < self.clients@.len() implies (#[trigger] self.clients@[j]).0.0
                < self.next_client_id && self.clients@[j].1.queue@.len() <= crate::constants::MAX_PENDING_COMMANDS by {
                let _ = before[j];
            }
        }
    }

    /// Position of the incantation called `incantation_id`.
    pub(crate) fn find_incantation(&self, incantation_id: usize) -> (position: Option<usize>)
        ensures
            position matches Some(i) ==> incantation_position(self.incantations@, incantation_id) == Some(i as int)
                && i < self.incantations@.len() && self.incantations@[i as int].spec_id() == incantation_id,
            position is None ==> incantation_position(self.incantations@, incantation_id) is None,
    {
        let mut i: usize = 0;
        assert(self.incantations@.skip(0) =~= self.incantations@);
        while i < self.incantations.len()
            invariant
                i <= self.incantations@.len(),
                incantation_position(self.incantations@, incantation_id) == match incantation_position(
                    self.incantations@.skip(i as int),
                    incantation_id,
                ) {
                    Some(k) => Some(k + i),
                    None => None,
                },
            decreases self.incantations@.len() - i,
        {
            if self.incantations[i].id == incantation_id {
                return Some(i);
            }
            assert(self.incantations@.skip(i as int).drop_first() =~= self.incantations@.skip(i + 1));
            i = i + 1;
        }
        None
    }
}

/// `after` is `before` once player `player_id` tried to start an
/// incantation at `now` for client `client_id`, `started` telling whether
/// it did.
pub open spec fn incantation_begun(before: GameState, after: GameState, client_id: ClientId, player_id: usize, now: u64, started: bool) -> bool {
    &&& started == before.planned_incantation(player_id) is Some
    &&& match before.planned_incantation(player_id) {
        None => after.only_sent(before, seq![to_client(client_id, KO_RESPONSE@)]),
        Some(plan) => launched(before, after, client_id, player_id, plan, now),
    }
}

/// An identifier is among the joiners exactly when a player with that
/// identifier can join.
proof fn lemma_joiners_contain(players: Seq<Player>, x: usize, y: usize, level: usize, id: usize)
    ensures
        joiners(players, x, y, level).contains(id) <==> exists|k: int|
            0 <= k < players.len() && (#[trigger] players[k]).id == id && can_join(players[k], x, y, level),
    decreases players.len(),
{
    if players.len() > 0 {
        let rest = players.drop_last();
        lemma_joiners_contain(rest, x, y, level, id);
        let earlier = joiners(rest, x, y, level);
        let all = joiners(players, x, y, level);
        let last = players.last();
        let n = players.len() - 1;
        if all.contains(id) {
            let w = choose|w: int| 0 <= w < all.len() && all[w] == id;
            if w < earlier.len() {
                assert(earlier[w] == all[w]);
                assert(earlier.contains(id));
                let k = choose|k: int| 0 <= k < rest.len() && (#[trigger] rest[k]).id == id && can_join(rest[k], x, y, level);
                assert(players[k] == rest[k]);
            } else {
                assert(players[n] == last);
            }
        }
        if exists|k: int| 0 <= k < players.len() && (#[trigger] players[k]).id == id && can_join(players[k], x, y, level) {
            let k = choose|k: int|
                0 <= k < players.len() && (#[trigger] players[k]).id == id && can_join(players[k], x, y, level);
            if k < n {
                assert(rest[k] == players[k]);
                assert(earlier.contains(id));
                let w = choose|w: int| 0 <= w < earlier.len() && earlier[w] == id;
                if can_join(last, x, y, level) {
                    assert(all[w] == earlier[w]);
                }
                assert(all.contains(id));
            } else {
                assert(players[k] == last);
                assert(all[all.len() - 1] == id);
                assert(all.contains(id));
            }
        }
    }
}

/// An incantation starts only with enough players: each participant is a
/// distinct player standing on the initiator's tile, of exactly the
/// initiator's level and not already frozen, every such player takes part,
/// and there are at least as many of them as the initiator's level asks.
pub proof fn lemma_incantation_participants_qualify(
    before: GameState,
    after: GameState,
    client_id: ClientId,
    initiator: usize,
    now: u64,
    started: bool,
)
    requires
        before.wf(),
        incantation_begun(before, after, client_id, initiator, now, started),
        started,
    ensures
        player_position(before.players@, initiator) is Some,
        ({
            let players = before.players@;
            let p = players[player_position(players, initiator)->0];
            let parts = after.incantations@.last().spec_participants();
            &&& requirement_for(p.level as nat) is Some
            &&& parts.len() >= requirement_for(p.level as nat)->0.players
            &&& parts.no_duplicates()
            &&& forall|k: int|
                #![trigger parts[k]]
                0 <= k < parts.len() ==> exists|j: int|
                    0 <= j < players.len() && (#[trigger] players[j]).id == parts[k] && players[j].x == p.x
                        && players[j].y == p.y && players[j].level == p.level && players[j].frozen_by is None
            &&& forall|j: int|
                0 <= j < players.len() && (#[trigger] players[j]).x == p.x && players[j].y == p.y
                    && players[j].level == p.level && players[j].frozen_by is None ==> parts.contains(players[j].id)
        }),
{
    let players = before.players@;
    let i = player_position(players, initiator)->0;
    lemma_player_position_is(players, initiator, i);
    let p = players[i];
    let found = joiners(players, p.x, p.y, p.level);
    let parts = after.incantations@.last().spec_participants();
    assert(before.player_ids() == players.map_values(|q: Player| q.id));
    lemma_joiners_increasing(players, p.x, p.y, p.level);
    assert(found.no_duplicates()) by {
        assert forall|a: int, b: int| 0 <= a < found.len() && 0 <= b < found.len() && a != b implies found[a]
            != found[b] by {
            if a < b {
                assert(found[a] < found[b]);
            } else {
                assert(found[b] < found[a]);
            }
        }
    }
    lemma_initiator_first_distinct(found, initiator);
    assert(parts == initiator_first(found, initiator));
    assert forall|k: int| #![trigger parts[k]] 0 <= k < parts.len() implies exists|j: int|
        0 <= j < players.len() && (#[trigger] players[j]).id == parts[k] && players[j].x == p.x
            && players[j].y == p.y && players[j].level == p.level && players[j].frozen_by is None by {
        assert(parts.contains(parts[k]));
        lemma_joiners_contain(players, p.x, p.y, p.level, parts[k]);
    }
    assert forall|j: int|
        0 <= j < players.len() && (#[trigger] players[j]).x == p.x && players[j].y == p.y
            && players[j].level == p.level && players[j].frozen_by is None implies parts.contains(players[j].id) by {
        lemma_joiners_contain(players, p.x, p.y, p.level, players[j].id);
    }
}

} // verus!

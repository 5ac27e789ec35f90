//! How an incantation ends: when its time is up it succeeds, and those of
//! its participants still there rise one level, or it fails; and how the
//! incantations of a player who leaves are cancelled.
use vstd::prelude::*;

use crate::client::{Client, ClientId};
use crate::command::ActiveCommand;
use crate::constants::KO_RESPONSE;
use crate::entities::Player;
use crate::game::{
    delivered, lemma_delivered_chain, lemma_delivered_nothing, lemma_player_position_is,
    lemma_player_unique, lemma_token_of_same_ids, lemma_wf_only_sent,
    player_position, to_guis, token_of, GameState, Mail,
};
use crate::gui_messages::{bct, bct_text, pie, pie_text, plv};
use crate::incantation::{
    after_clearing, clients_changed, failure_mail, holds_stones, incantation_position, incantation_requirement, lemma_wf_players_kept,
    only_players_and_mail, released_players, requirement_for, to_player_mail, without_stones,
    Incantation, IncantationRequirement,
};
use crate::lifecycle::{victory_mail, winner_after};
use crate::text::{append, append_decimal, decimal};
use crate::world::Inventory;

verus! {

/// Participant `player_id` still stands on the incantation's tile, at its
/// level, frozen by it.
pub open spec fn still_valid(players: Seq<Player>, incantation: Incantation, player_id: usize) -> bool {
    match player_position(players, player_id) {
        Some(i) => {
            let p = players[i];
            &&& p.x == incantation.spec_x()
            &&& p.y == incantation.spec_y()
            &&& p.level == incantation.spec_level()
            &&& p.frozen_by == Some(incantation.spec_id())
        },
        None => false,
    }
}

/// Those of `ids`, in order, that are still valid participants.
pub open spec fn valid_among(players: Seq<Player>, incantation: Incantation, ids: Seq<usize>) -> Seq<usize>
    decreases ids.len(),
{
    if ids.len() == 0 {
        Seq::empty()
    } else {
        let earlier = valid_among(players, incantation, ids.drop_last());
        if still_valid(players, incantation, ids.last()) {
            earlier.push(ids.last())
        } else {
            earlier
        }
    }
}

/// The participants of `incantation` that are still valid, in order.
pub open spec fn valid_participants(players: Seq<Player>, incantation: Incantation) -> Seq<usize> {
    valid_among(players, incantation, incantation.spec_participants())
}

/// The requirement met by `incantation` in `state` when its time is up:
/// none when its level has none, too few participants are still valid or
/// the tile lacks stones.
pub open spec fn success_requirement(state: GameState, incantation: Incantation) -> Option<IncantationRequirement> {
    let x = incantation.spec_x() as int;
    let y = incantation.spec_y() as int;
    match requirement_for(incantation.spec_level() as nat) {
        Some(r) => if valid_participants(state.players@, incantation).len() >= r.players
            && state.map.contains(x, y) && holds_stones(state.map.tile(x, y), r) {
            Some(r)
        } else {
            None
        },
        None => None,
    }
}

/// The players once those of `ids` rose one level.
pub open spec fn elevated_players(players: Seq<Player>, ids: Seq<usize>) -> Seq<Player> {
    players.map_values(|p: Player| if ids.contains(p.id) {
        Player { level: (p.level + 1) as usize, ..p }
    } else {
        p
    })
}

/// `Current level: L`, told to a player who rose.
pub open spec fn level_text(level: nat) -> Seq<char> {
    "Current level: "@ + decimal(level) + "\n"@
}

/// `plv #n L` for player `player_id` at `level`.
pub open spec fn plv_line(player_id: nat, level: nat) -> Seq<char> {
    "plv #"@ + decimal(player_id) + " "@ + decimal(level) + "\n"@
}

/// `ko` to each of `ids`, in order, that is not in `valid`.
pub open spec fn leftover_mail(clients: Seq<(ClientId, Client)>, ids: Seq<usize>, valid: Seq<usize>) -> Seq<Mail>
    decreases ids.len(),
{
    if ids.len() == 0 {
        Seq::empty()
    } else {
        let earlier = leftover_mail(clients, ids.drop_last(), valid);
        if valid.contains(ids.last()) {
            earlier
        } else {
            earlier + to_player_mail(clients, ids.last(), KO_RESPONSE@)
        }
    }
}

/// For each of `ids`, in order, who rose to `level`: the player is told,
/// and the graphical clients see `plv`.
pub open spec fn level_up_mail(clients: Seq<(ClientId, Client)>, ids: Seq<usize>, level: nat) -> Seq<Mail>
    decreases ids.len(),
{
    if ids.len() == 0 {
        Seq::empty()
    } else {
        level_up_mail(clients, ids.drop_last(), level) + to_player_mail(clients, ids.last(), level_text(level))
            + seq![to_guis(plv_line(ids.last() as nat, level))]
    }
}

/// `after` is `before` once incantation `incantation` failed: its
/// participants are released and told `ko`, and the graphical clients see
/// `pie` with failure.
pub open spec fn failed(before: GameState, after: GameState, incantation: Incantation) -> bool {
    &&& after.players@ == released_players(before.players@, incantation.spec_participants(), incantation.spec_id())
    &&& only_players_and_mail(
        before,
        after,
        failure_mail(before.clients@, incantation.spec_participants(), None) + seq![
            to_guis(pie_text(incantation.spec_x() as nat, incantation.spec_y() as nat, false)),
        ],
    )
}

/// `after` is `before` once incantation `incantation` succeeded with
/// requirement `r`: its stones leave the tile, its participants are
/// released, those no longer valid are told `ko`, the valid ones rise one
/// level and are told so, the graphical clients see `plv` for each, `pie`
/// with success and the tile's `bct`, and the victory is checked.
pub open spec fn completed(before: GameState, after: GameState, incantation: Incantation, r: IncantationRequirement) -> bool {
    let x = incantation.spec_x();
    let y = incantation.spec_y();
    let participants = incantation.spec_participants();
    let valid = valid_participants(before.players@, incantation);
    let players = elevated_players(
        released_players(before.players@, participants, incantation.spec_id()),
        valid,
    );
    let tile = without_stones(before.map.tile(x as int, y as int), r);
    let mail = leftover_mail(before.clients@, participants, valid) + level_up_mail(
        before.clients@,
        valid,
        (incantation.spec_level() + 1) as nat,
    ) + seq![to_guis(pie_text(x as nat, y as nat, true)), to_guis(bct_text(x as nat, y as nat, tile))];
    &&& after.players@ == players
    &&& before.map.with_tile(after.map, x as int, y as int, tile)
    &&& after.winner == winner_after(before.winner, before.teams@, players)
    &&& delivered(before.clients@, after.clients@, mail + victory_mail(before.winner, before.teams@, players))
    &&& after.eggs@ == before.eggs@
    &&& after.teams@ == before.teams@
    &&& after.frequency == before.frequency
    &&& after.next_client_id == before.next_client_id
    &&& after.next_player_id == before.next_player_id
    &&& after.next_egg_id == before.next_egg_id
    &&& after.next_incantation_id == before.next_incantation_id
    &&& after.next_resource_spawn == before.next_resource_spawn
    &&& after.incantations@ == before.incantations@
}

/// `after` is `before` once the time of incantation `incantation_id` is
/// up: an unknown incantation changes nothing; otherwise it is removed,
/// and it succeeds or fails by what holds now.
pub open spec fn finished(before: GameState, after: GameState, incantation_id: usize) -> bool {
    match incantation_position(before.incantations@, incantation_id) {
        None => after == before,
        Some(i) => {
            let incantation = before.incantations@[i];
            let removed = GameState { incantations: after.incantations, ..before };
            &&& after.incantations@ == before.incantations@.remove(i)
            &&& match success_requirement(before, incantation) {
                None => failed(removed, after, incantation),
                Some(r) => completed(removed, after, incantation, r),
            }
        },
    }
}

/// Removing an incantation keeps the state consistent.
proof fn lemma_wf_without_incantation(before: GameState, after: GameState, i: int)
    requires
        before.wf(),
        0 <= i < before.incantations@.len(),
        after.incantations@ == before.incantations@.remove(i),
        after == (GameState { incantations: after.incantations, ..before }),
    ensures
        after.wf(),
{
    let a = after.incantation_ids();
    let b = before.incantation_ids();
    assert forall|j: int, k: int| 0 <= j < k < a.len() implies a[j] < a[k] by {
        let jj = if j < i { j } else { j + 1 };
        let kk = if k < i { k } else { k + 1 };
        assert(after.incantations@[j] == before.incantations@[jj]);
        assert(after.incantations@[k] == before.incantations@[kk]);
        assert(b[jj] < b[kk]);
    }
    assert forall|j: int| 0 <= j < after.incantations@.len() implies (#[trigger] after.incantations@[j]).spec_id()
        < after.next_incantation_id && after.incantations@[j].spec_participants().no_duplicates() by {
        let jj = if j < i { j } else { j + 1 };
        assert(after.incantations@[j] == before.incantations@[jj]);
    }
}

/// Releasing one more participant releases the longer list.
proof fn lemma_released_step(players: Seq<Player>, taken: Seq<usize>, id: usize, incantation_id: usize)
    ensures
        released_players(released_players(players, taken, incantation_id), seq![id], incantation_id)
            == released_players(players, taken.push(id), incantation_id),
{
    let next = taken.push(id);
    assert forall|j: int| 0 <= j < players.len() implies #[trigger] released_players(
        released_players(players, taken, incantation_id),
        seq![id],
        incantation_id,
    )[j] == released_players(players, next, incantation_id)[j] by {
        let p = players[j];
        assert(next.contains(p.id) == (taken.contains(p.id) || p.id == id)) by {
            if next.contains(p.id) {
                let w = choose|w: int| 0 <= w < next.len() && next[w] == p.id;
                if w < taken.len() {
                    assert(taken[w] == next[w]);
                }
            }
            if taken.contains(p.id) {
                let w = choose|w: int| 0 <= w < taken.len() && taken[w] == p.id;
                assert(next[w] == taken[w]);
            }
            if p.id == id {
                assert(next[taken.len() as int] == id);
            }
        }
        assert(seq![id].contains(p.id) == (p.id == id)) by {
            assert(seq![id][0] == id);
        }
    }
    assert(released_players(released_players(players, taken, incantation_id), seq![id], incantation_id)
        =~= released_players(players, next, incantation_id));
}

/// Raising one more player raises the longer list, when it was not raised
/// yet.
proof fn lemma_elevated_step(players: Seq<Player>, taken: Seq<usize>, id: usize)
    requires
        !taken.contains(id),
    ensures
        elevated_players(elevated_players(players, taken), seq![id]) == elevated_players(players, taken.push(id)),
{
    let next = taken.push(id);
    assert forall|j: int| 0 <= j < players.len() implies #[trigger] elevated_players(
        elevated_players(players, taken),
        seq![id],
    )[j] == elevated_players(players, next)[j] by {
        let p = players[j];
        assert(next.contains(p.id) == (taken.contains(p.id) || p.id == id)) by {
            if next.contains(p.id) {
                let w = choose|w: int| 0 <= w < next.len() && next[w] == p.id;
                if w < taken.len() {
                    assert(taken[w] == next[w]);
                }
            }
            if taken.contains(p.id) {
                let w = choose|w: int| 0 <= w < taken.len() && taken[w] == p.id;
                assert(next[w] == taken[w]);
            }
            if p.id == id {
                assert(next[taken.len() as int] == id);
            }
        }
        assert(seq![id].contains(p.id) == (p.id == id)) by {
            assert(seq![id][0] == id);
        }
    }
    assert(elevated_players(elevated_players(players, taken), seq![id]) =~= elevated_players(players, next));
}

/// `ids` holds `id`.
fn ids_contain(ids: &Vec<usize>, id: usize) -> (found: bool)
    ensures
        found == ids@.contains(id),
{
    let mut k: usize = 0;
    while k < ids.len()
        invariant
            k <= ids@.len(),
            forall|m: int| 0 <= m < k ==> ids@[m] != id,
        decreases ids@.len() - k,
    {
        if ids[k] == id {
            assert(ids@[k as int] == id);
            return true;
        }
        k = k + 1;
    }
    false
}

impl GameState {
    /// Participant `player_id` of `incantation` is still valid.
    fn participant_is_still_valid(&self, incantation: &Incantation, player_id: usize) -> (valid: bool)
        ensures
            valid == still_valid(self.players@, *incantation, player_id),
    {
        match self.find_player(player_id) {
            Some(i) => {
                let p = &self.players[i];
                p.x == incantation.x() && p.y == incantation.y() && p.level == incantation.level()
                    && p.frozen_by == Some(incantation.id())
            },
            None => false,
        }
    }

    /// The participants of `incantation` that are still valid, in order.
    fn collect_valid_participants(&self, incantation: &Incantation) -> (ids: Vec<usize>)
        ensures
            ids@ == valid_participants(self.players@, *incantation),
    {
        let participants = incantation.participants();
        let mut ids: Vec<usize> = Vec::new();
        let mut k: usize = 0;
        while k < participants.len()
            invariant
                k <= participants@.len(),
                participants@ == incantation.spec_participants(),
                ids@ == valid_among(self.players@, *incantation, participants@.take(k as int)),
            decreases participants@.len() - k,
        {
            assert(participants@.take(k + 1).drop_last() =~= participants@.take(k as int));
            let id = participants[k];
            if self.participant_is_still_valid(incantation, id) {
                ids.push(id);
            }
            k = k + 1;
        }
        assert(participants@.take(k as int) =~= participants@);
        ids
    }

    /// The requirement `incantation` meets now, and its valid participants.
    fn validate_incantation(&self, incantation: &Incantation) -> (validation: Option<(IncantationRequirement, Vec<usize>)>)
        requires
            self.map.wf(),
        ensures
            match success_requirement(*self, *incantation) {
                None => validation is None,
                Some(r) => validation matches Some(v) && v.0 == r && v.1@ == valid_participants(
                    self.players@,
                    *incantation,
                ),
            },
    {
        let requirement = incantation_requirement(incantation.level())?;
        let ids = self.collect_valid_participants(incantation);
        if !self.incantation_conditions_are_met((incantation.x(), incantation.y()), &ids, requirement) {
            return None;
        }
        Some((requirement, ids))
    }
}


/// The still-valid participants are valid, are participants, and are
/// distinct when the participants are.
proof fn lemma_valid_among(players: Seq<Player>, incantation: Incantation, ids: Seq<usize>)
    ensures
        forall|k: int| 0 <= k < valid_among(players, incantation, ids).len() ==> still_valid(
            players,
            incantation,
            #[trigger] valid_among(players, incantation, ids)[k],
        ) && ids.contains(valid_among(players, incantation, ids)[k]),
        ids.no_duplicates() ==> valid_among(players, incantation, ids).no_duplicates(),
    decreases ids.len(),
{
    if ids.len() > 0 {
        let rest = ids.drop_last();
        lemma_valid_among(players, incantation, rest);
        let earlier = valid_among(players, incantation, rest);
        let v = valid_among(players, incantation, ids);
        assert forall|k: int| 0 <= k < v.len() implies still_valid(players, incantation, #[trigger] v[k])
            && ids.contains(v[k]) by {
            if k < earlier.len() {
                assert(v[k] == earlier[k]);
                let w = choose|w: int| 0 <= w < rest.len() && rest[w] == earlier[k];
                assert(ids[w] == rest[w]);
            } else {
                assert(ids[ids.len() - 1] == ids.last());
            }
        }
        if ids.no_duplicates() {
            assert(rest.no_duplicates()) by {
                assert forall|a: int, b: int| 0 <= a < rest.len() && 0 <= b < rest.len() && a != b implies rest[a]
                    != rest[b] by {
                    assert(rest[a] == ids[a] && rest[b] == ids[b]);
                }
            }
            if still_valid(players, incantation, ids.last()) {
                assert(!earlier.contains(ids.last())) by {
                    if earlier.contains(ids.last()) {
                        let k = choose|k: int| 0 <= k < earlier.len() && earlier[k] == ids.last();
                        let w = choose|w: int| 0 <= w < rest.len() && rest[w] == earlier[k];
                        assert(ids[w] == ids[ids.len() - 1]);
                    }
                }
            }
        }
    }
}

/// Players with the same identifiers, in the same order, are found at
/// the same positions.
pub proof fn lemma_player_position_same_ids(a: Seq<Player>, b: Seq<Player>, id: usize)
    requires
        a.len() == b.len(),
        forall|j: int| 0 <= j < a.len() ==> (#[trigger] a[j]).id == b[j].id,
    ensures
        player_position(a, id) == player_position(b, id),
    decreases a.len(),
{
    if a.len() > 0 {
        assert(a[0].id == b[0].id);
        assert forall|j: int| 0 <= j < a.len() - 1 implies (#[trigger] a.drop_first()[j]).id == b.drop_first()[j].id by {
            assert(a[j + 1].id == b[j + 1].id);
        }
        lemma_player_position_same_ids(a.drop_first(), b.drop_first(), id);
    }
}

/// Clients that play the same players get the same messages meant for
/// players.
proof fn lemma_level_up_mail_tokens(a: Seq<(ClientId, Client)>, b: Seq<(ClientId, Client)>, ids: Seq<usize>, level: nat)
    requires
        forall|pid: usize| #[trigger] token_of(a, pid) == token_of(b, pid),
    ensures
        level_up_mail(a, ids, level) == level_up_mail(b, ids, level),
    decreases ids.len(),
{
    if ids.len() > 0 {
        lemma_level_up_mail_tokens(a, b, ids.drop_last(), level);
        assert(token_of(a, ids.last()) == token_of(b, ids.last()));
    }
}

/// Queuing messages does not change who plays which player.
proof fn lemma_delivered_tokens(a: Seq<(ClientId, Client)>, b: Seq<(ClientId, Client)>, mail: Seq<Mail>)
    requires
        delivered(a, b, mail),
    ensures
        forall|pid: usize| #[trigger] token_of(a, pid) == token_of(b, pid),
{
    assert forall|pid: usize| #[trigger] token_of(a, pid) == token_of(b, pid) by {
        lemma_token_of_same_ids(a, b, pid);
    }
}

impl GameState {
    /// Takes the stones of `requirement` from the tile at (`x`, `y`).
    fn consume_incantation_stones(&mut self, x: usize, y: usize, requirement: IncantationRequirement)
        requires
            old(self).wf(),
            old(self).map.contains(x as int, y as int),
            holds_stones(old(self).map.tile(x as int, y as int), requirement),
        ensures
            final(self).wf(),
            old(self).map.with_tile(
                final(self).map,
                x as int,
                y as int,
                without_stones(old(self).map.tile(x as int, y as int), requirement),
            ),
            *final(self) == (GameState { map: final(self).map, ..*old(self) }),
    {
        let tile = match self.map.get_tile(x, y) {
            Some(tile) => *tile,
            None => return,
        };
        let stones = requirement.stones;
        let remaining = Inventory {
            food: tile.food,
            linemate: tile.linemate - stones.linemate,
            deraumere: tile.deraumere - stones.deraumere,
            sibur: tile.sibur - stones.sibur,
            mendiane: tile.mendiane - stones.mendiane,
            phiras: tile.phiras - stones.phiras,
            thystame: tile.thystame - stones.thystame,
        };
        let ghost before = *self;
        self.map.set_tile(x, y, remaining);
        proof {
            assert forall|j: int| 0 <= j < self.players@.len() implies (#[trigger] self.players@[j]).id
                < self.next_player_id && self.map.contains(self.players@[j].x as int, self.players@[j].y as int) by {
                let _ = before.players@[j];
            }
            assert forall|j: int| 0 <= j < self.eggs@.len() implies (#[trigger] self.eggs@[j]).id
                < self.next_egg_id && self.map.contains(self.eggs@[j].x as int, self.eggs@[j].y as int) by {
                let _ = before.eggs@[j];
            }
        }
    }

    /// Releases the participants of `incantation` and tells `ko` to those
    /// not in `valid`.
    fn release_incantation_participants(&mut self, incantation: &Incantation, valid: &Vec<usize>)
        requires
            old(self).wf(),
        ensures
            final(self).wf(),
            final(self).players@ == released_players(
                old(self).players@,
                incantation.spec_participants(),
                incantation.spec_id(),
            ),
            only_players_and_mail(
                *old(self),
                *final(self),
                leftover_mail(old(self).clients@, incantation.spec_participants(), valid@),
            ),
    {
        let ghost start = *self;
        let ids = incantation.participants();
        let incantation_id = incantation.id();
        let mut k: usize = 0;
        proof {
            lemma_delivered_nothing(self.clients@);
            assert(ids@.take(0) =~= Seq::<usize>::empty());
            assert(released_players(start.players@, Seq::empty(), incantation_id) =~= start.players@);
        }
        while k < ids.len()
            invariant
                start.wf(),
                self.wf(),
                k <= ids@.len(),
                ids@ == incantation.spec_participants(),
                incantation_id == incantation.spec_id(),
                self.players@ == released_players(start.players@, ids@.take(k as int), incantation_id),
                only_players_and_mail(start, *self, leftover_mail(start.clients@, ids@.take(k as int), valid@)),
            decreases ids@.len() - k,
        {
            let participant_id = ids[k];
            let ghost taken = ids@.take(k as int);
            let ghost next = ids@.take(k + 1);
            assert(next =~= taken.push(participant_id));
            self.unfreeze_participant(participant_id, incantation_id);
            proof {
                lemma_released_step(start.players@, taken, participant_id, incantation_id);
            }
            let ghost s1 = *self;
            if !ids_contain(valid, participant_id) {
                self.queue_to_player(participant_id, KO_RESPONSE);
                proof {
                    lemma_delivered_chain(start.clients@, s1.clients@, self.clients@,
                        leftover_mail(start.clients@, taken, valid@),
                        to_player_mail(s1.clients@, participant_id, KO_RESPONSE@));
                    lemma_token_of_same_ids(start.clients@, s1.clients@, participant_id);
                }
            }
            proof {
                assert(next.drop_last() =~= taken);
                assert(self.player_ids() =~= start.player_ids());
            }
            k = k + 1;
        }
        assert(ids@.take(ids@.len() as int) =~= ids@);
    }

    /// Player `player_id`, at `level`, rises one level: it is told, and
    /// the graphical clients see `plv`.
    fn elevate_player(&mut self, player_id: usize, level: usize)
        requires
            old(self).wf(),
            level < usize::MAX,
            player_position(old(self).players@, player_id) matches Some(i) && old(self).players@[i].level == level,
        ensures
            final(self).wf(),
            final(self).players@ == elevated_players(old(self).players@, seq![player_id]),
            only_players_and_mail(
                *old(self),
                *final(self),
                to_player_mail(old(self).clients@, player_id, level_text((level + 1) as nat)) + seq![
                    to_guis(plv_line(player_id as nat, (level + 1) as nat)),
                ],
            ),
    {
        let ghost start = *self;
        let i = match self.find_player(player_id) {
            Some(i) => i,
            None => {
                return;
            },
        };
        proof {
            lemma_player_position_is(self.players@, player_id, i as int);
            assert(self.players@.map_values(|p: Player| p.id) =~= self.player_ids());
            lemma_player_unique(self.players@, i as int);
        }
        self.players[i].level = self.players[i].level + 1;
        proof {
            assert forall|j: int| 0 <= j < self.players@.len() implies #[trigger] self.players@[j]
                == elevated_players(start.players@, seq![player_id])[j] by {
                let _ = start.players@[j];
                assert(seq![player_id].contains(start.players@[j].id) == (start.players@[j].id == player_id)) by {
                    assert(seq![player_id][0] == player_id);
                }
            }
            assert(self.players@ =~= elevated_players(start.players@, seq![player_id]));
            assert(self.player_ids() =~= start.player_ids()) by {
                assert forall|j: int| 0 <= j < self.players@.len() implies #[trigger] self.player_ids()[j]
                    == start.player_ids()[j] by {
                    let _ = start.players@[j];
                }
            }
            lemma_delivered_nothing(self.clients@);
            lemma_wf_players_kept(start, *self, Seq::empty());
        }
        let mut response = String::new();
        append(&mut response, "Current level: ");
        append_decimal(&mut response, self.players[i].level);
        append(&mut response, "\n");
        let message = plv(&self.players[i]);
        let ghost s1 = *self;
        self.queue_to_player(player_id, response.as_str());
        let ghost s2 = *self;
        self.broadcast_to_guis(message.as_str());
        proof {
            lemma_wf_only_sent(s2, *self, seq![to_guis(message@)]);
            lemma_delivered_chain(s1.clients@, s2.clients@, self.clients@,
                to_player_mail(s1.clients@, player_id, response@), seq![to_guis(message@)]);
            lemma_delivered_nothing(start.clients@);
            lemma_delivered_chain(start.clients@, s1.clients@, self.clients@, Seq::empty(),
                to_player_mail(s1.clients@, player_id, response@) + seq![to_guis(message@)]);
            assert(Seq::<Mail>::empty() + (to_player_mail(s1.clients@, player_id, response@) + seq![to_guis(message@)])
                =~= to_player_mail(s1.clients@, player_id, response@) + seq![to_guis(message@)]);
        }
    }

    /// The players of `ids`, all at `level`, rise one level, in order.
    fn elevate_participants(&mut self, ids: &Vec<usize>, level: usize)
        requires
            old(self).wf(),
            level < usize::MAX,
            ids@.no_duplicates(),
            forall|k: int|
                0 <= k < ids@.len() ==> (player_position(old(self).players@, #[trigger] ids@[k]) matches Some(i)
                    && old(self).players@[i].level == level),
        ensures
            final(self).wf(),
            final(self).players@ == elevated_players(old(self).players@, ids@),
            only_players_and_mail(*old(self), *final(self), level_up_mail(old(self).clients@, ids@, (level + 1) as nat)),
    {
        let ghost start = *self;
        let mut k: usize = 0;
        proof {
            lemma_delivered_nothing(self.clients@);
            assert(ids@.take(0) =~= Seq::<usize>::empty());
            assert forall|j: int| 0 <= j < start.players@.len() implies #[trigger] start.players@[j]
                == elevated_players(start.players@, Seq::empty())[j] by {
            }
            assert(elevated_players(start.players@, Seq::empty()) =~= start.players@);
        }
        while k < ids.len()
            invariant
                start.wf(),
                self.wf(),
                k <= ids@.len(),
                level < usize::MAX,
                ids@.no_duplicates(),
                forall|m: int|
                    0 <= m < ids@.len() ==> (player_position(start.players@, #[trigger] ids@[m]) matches Some(i)
                        && start.players@[i].level == level),
                self.players@ == elevated_players(start.players@, ids@.take(k as int)),
                only_players_and_mail(start, *self, level_up_mail(start.clients@, ids@.take(k as int), (level + 1) as nat)),
            decreases ids@.len() - k,
        {
            let id = ids[k];
            let ghost taken = ids@.take(k as int);
            let ghost next = ids@.take(k + 1);
            assert(next =~= taken.push(id));
            assert(!taken.contains(id)) by {
                if taken.contains(id) {
                    let w = choose|w: int| 0 <= w < taken.len() && taken[w] == id;
                    assert(ids@[w] == ids@[k as int]);
                }
            }
            proof {
                assert(self.players@.len() == start.players@.len());
                assert forall|j: int| 0 <= j < self.players@.len() implies (#[trigger] self.players@[j]).id
                    == start.players@[j].id by {
                    let _ = start.players@[j];
                }
                lemma_player_position_same_ids(self.players@, start.players@, id);
                let _ = ids@[k as int];
                let i = player_position(start.players@, id)->0;
                lemma_player_position_is(start.players@, id, i);
                assert(self.players@[i] == elevated_players(start.players@, taken)[i]);
                assert(self.players@[i].level == level);
            }
            let ghost s0 = *self;
            self.elevate_player(id, level);
            proof {
                lemma_elevated_step(start.players@, taken, id);
                lemma_delivered_tokens(start.clients@, s0.clients@, level_up_mail(start.clients@, taken, (level + 1) as nat));
                lemma_delivered_chain(start.clients@, s0.clients@, self.clients@,
                    level_up_mail(start.clients@, taken, (level + 1) as nat),
                    to_player_mail(s0.clients@, id, level_text((level + 1) as nat)) + seq![
                        to_guis(plv_line(id as nat, (level + 1) as nat)),
                    ]);
                assert(next.drop_last() =~= taken);
                assert(level_up_mail(start.clients@, next, (level + 1) as nat) =~= level_up_mail(start.clients@, taken, (level + 1) as nat)
                    + (to_player_mail(s0.clients@, id, level_text((level + 1) as nat)) + seq![
                        to_guis(plv_line(id as nat, (level + 1) as nat)),
                    ]));
                assert(self.player_ids() =~= start.player_ids());
            }
            k = k + 1;
        }
        assert(ids@.take(ids@.len() as int) =~= ids@);
    }
}


impl GameState {
    /// Carries out incantation `incantation`, which meets `requirement`
    /// with its valid participants `valid`.
    fn complete_incantation(&mut self, incantation: Incantation, requirement: IncantationRequirement, valid: Vec<usize>)
        requires
            old(self).wf(),
            success_requirement(*old(self), incantation) == Some(requirement),
            valid@ == valid_participants(old(self).players@, incantation),
            incantation.spec_participants().no_duplicates(),
        ensures
            final(self).wf(),
            completed(*old(self), *final(self), incantation, requirement),
    {
        let ghost s0 = *self;
        let x = incantation.x();
        let y = incantation.y();
        let level = incantation.level();
        let ghost participants = incantation.spec_participants();
        self.consume_incantation_stones(x, y, requirement);
        let ghost s1 = *self;
        self.release_incantation_participants(&incantation, &valid);
        let ghost s2 = *self;
        proof {
            lemma_valid_among(s0.players@, incantation, participants);
            assert(s2.players@.len() == s0.players@.len());
            assert forall|j: int| 0 <= j < s2.players@.len() implies (#[trigger] s2.players@[j]).id
                == s0.players@[j].id && s2.players@[j].level == s0.players@[j].level by {
                let _ = s0.players@[j];
            }
            assert forall|k: int| 0 <= k < valid@.len() implies (player_position(s2.players@, #[trigger] valid@[k]) matches Some(i)
                && s2.players@[i].level == level) by {
                let id = valid@[k];
                assert(still_valid(s0.players@, incantation, id));
                lemma_player_position_same_ids(s2.players@, s0.players@, id);
                let i = player_position(s0.players@, id)->0;
                lemma_player_position_is(s0.players@, id, i);
            }
        }
        self.elevate_participants(&valid, level);
        let ghost s3 = *self;
        let pie_message = pie(x, y, true);
        self.broadcast_to_guis(pie_message.as_str());
        let ghost s4 = *self;
        let tile_message = bct(&self.map, x, y);
        self.broadcast_to_guis(tile_message.as_str());
        let ghost s5 = *self;
        proof {
            lemma_wf_only_sent(s3, s4, seq![to_guis(pie_message@)]);
            lemma_wf_only_sent(s4, s5, seq![to_guis(tile_message@)]);
        }
        self.check_victory();
        proof {
            let valid_s = valid@;
            let leftover = leftover_mail(s0.clients@, participants, valid_s);
            let ups = level_up_mail(s0.clients@, valid_s, (level + 1) as nat);
            let tile = without_stones(s0.map.tile(x as int, y as int), requirement);
            lemma_delivered_tokens(s1.clients@, s2.clients@, leftover);
            lemma_level_up_mail_tokens(s0.clients@, s2.clients@, valid_s, (level + 1) as nat);
            assert(tile_message@ == bct_text(x as nat, y as nat, tile));
            lemma_delivered_chain(s0.clients@, s2.clients@, s3.clients@, leftover, ups);
            lemma_delivered_chain(s0.clients@, s3.clients@, s4.clients@, leftover + ups, seq![to_guis(pie_message@)]);
            lemma_delivered_chain(s0.clients@, s4.clients@, s5.clients@, leftover + ups + seq![to_guis(pie_message@)],
                seq![to_guis(tile_message@)]);
            let players = s5.players@;
            lemma_delivered_chain(s0.clients@, s5.clients@, self.clients@,
                leftover + ups + seq![to_guis(pie_message@)] + seq![to_guis(tile_message@)],
                victory_mail(s5.winner, s5.teams@, players));
            assert(leftover + ups + seq![to_guis(pie_message@)] + seq![to_guis(tile_message@)] =~= leftover + ups
                + seq![to_guis(pie_text(x as nat, y as nat, true)), to_guis(bct_text(x as nat, y as nat, tile))]);
        }
    }

    /// Ends incantation `incantation_id` when its time is up.
    pub fn finish_incantation(&mut self, incantation_id: usize)
        requires
            old(self).wf(),
        ensures
            final(self).wf(),
            finished(*old(self), *final(self), incantation_id),
    {
        let ghost before = *self;
        let i = match self.find_incantation(incantation_id) {
            Some(i) => i,
            None => return,
        };
        let incantation = self.incantations.remove(i);
        proof {
            lemma_wf_without_incantation(before, *self, i as int);
            assert(incantation.spec_participants().no_duplicates());
        }
        match self.validate_incantation(&incantation) {
            None => {
                self.fail_incantation_record(incantation, None);
            },
            Some(validation) => {
                let (requirement, valid) = validation;
                self.complete_incantation(incantation, requirement, valid);
            },
        }
    }
}


/// `after` is `before` once incantation `incantation` was cancelled
/// because player `excluded` left: the client of its initiator stops
/// running it, its participants are released and told `ko` but
/// `excluded`, and the graphical clients see `pie` with failure.
pub open spec fn cancelled(before: GameState, after: GameState, incantation: Incantation, excluded: usize) -> bool {
    let token = token_of(before.clients@, incantation.spec_initiator());
    &&& after.players@ == released_players(before.players@, incantation.spec_participants(), incantation.spec_id())
    &&& clients_changed(
        before.clients@,
        after.clients@,
        failure_mail(before.clients@, incantation.spec_participants(), Some(excluded)) + seq![
            to_guis(pie_text(incantation.spec_x() as nat, incantation.spec_y() as nat, false)),
        ],
        |j: int| after_clearing(token, before.clients@[j].0, before.clients@[j].1.active, incantation.spec_id()),
    )
    &&& after.same_but_players(before)
    &&& after.player_ids() == before.player_ids()
}

/// The incantations of `incantations`, in order, that player `player_id`
/// takes part in.
pub open spec fn involving(incantations: Seq<Incantation>, player_id: usize) -> Seq<Incantation>
    decreases incantations.len(),
{
    if incantations.len() == 0 {
        Seq::empty()
    } else {
        let earlier = involving(incantations.drop_last(), player_id);
        if incantations.last().spec_participants().contains(player_id) {
            earlier.push(incantations.last())
        } else {
            earlier
        }
    }
}

/// The incantations of `incantations`, in order, that player `player_id`
/// takes no part in.
pub open spec fn not_involving(incantations: Seq<Incantation>, player_id: usize) -> Seq<Incantation>
    decreases incantations.len(),
{
    if incantations.len() == 0 {
        Seq::empty()
    } else {
        let earlier = not_involving(incantations.drop_last(), player_id);
        if incantations.last().spec_participants().contains(player_id) {
            earlier
        } else {
            earlier.push(incantations.last())
        }
    }
}

/// The players once the participants of each of `incantations`, in order,
/// are released.
pub open spec fn released_by_all(players: Seq<Player>, incantations: Seq<Incantation>) -> Seq<Player>
    decreases incantations.len(),
{
    if incantations.len() == 0 {
        players
    } else {
        released_players(
            released_by_all(players, incantations.drop_last()),
            incantations.last().spec_participants(),
            incantations.last().spec_id(),
        )
    }
}

/// What client `client_id` runs once each of `incantations`, in order, is
/// cancelled.
pub open spec fn cleared_by_all(
    clients: Seq<(ClientId, Client)>,
    client_id: ClientId,
    active: Option<ActiveCommand>,
    incantations: Seq<Incantation>,
) -> Option<ActiveCommand>
    decreases incantations.len(),
{
    if incantations.len() == 0 {
        active
    } else {
        after_clearing(
            token_of(clients, incantations.last().spec_initiator()),
            client_id,
            cleared_by_all(clients, client_id, active, incantations.drop_last()),
            incantations.last().spec_id(),
        )
    }
}

/// What cancelling each of `incantations`, in order, because player
/// `player_id` left, tells the clients.
pub open spec fn cancellation_mail(clients: Seq<(ClientId, Client)>, incantations: Seq<Incantation>, player_id: usize) -> Seq<Mail>
    decreases incantations.len(),
{
    if incantations.len() == 0 {
        Seq::empty()
    } else {
        let last = incantations.last();
        cancellation_mail(clients, incantations.drop_last(), player_id) + failure_mail(
            clients,
            last.spec_participants(),
            Some(player_id),
        ) + seq![to_guis(pie_text(last.spec_x() as nat, last.spec_y() as nat, false))]
    }
}

/// `after` is `before` once every incantation that player `player_id`
/// takes part in was cancelled, in order.
pub open spec fn cancelled_for_player(before: GameState, after: GameState, player_id: usize) -> bool {
    let gone = involving(before.incantations@, player_id);
    &&& after.incantations@ == not_involving(before.incantations@, player_id)
    &&& after.players@ == released_by_all(before.players@, gone)
    &&& clients_changed(
        before.clients@,
        after.clients@,
        cancellation_mail(before.clients@, gone, player_id),
        |j: int| cleared_by_all(before.clients@, before.clients@[j].0, before.clients@[j].1.active, gone),
    )
    &&& after.eggs@ == before.eggs@
    &&& after.teams@ == before.teams@
    &&& after.map == before.map
    &&& after.frequency == before.frequency
    &&& after.next_client_id == before.next_client_id
    &&& after.next_player_id == before.next_player_id
    &&& after.next_egg_id == before.next_egg_id
    &&& after.next_incantation_id == before.next_incantation_id
    &&& after.next_resource_spawn == before.next_resource_spawn
    &&& after.winner == before.winner
    &&& after.player_ids() == before.player_ids()
}

/// Clients changed twice changed once, by both batches of messages.
pub proof fn lemma_clients_changed_chain(
    a: Seq<(ClientId, Client)>,
    b: Seq<(ClientId, Client)>,
    c: Seq<(ClientId, Client)>,
    m1: Seq<Mail>,
    m2: Seq<Mail>,
    f: spec_fn(int) -> Option<ActiveCommand>,
    g: spec_fn(int) -> Option<ActiveCommand>,
)
    requires
        clients_changed(a, b, m1, f),
        clients_changed(b, c, m2, g),
    ensures
        clients_changed(a, c, m1 + m2, g),
{
    assert forall|i: int| 0 <= i < a.len() implies {
        let (cid, cl) = a[i];
        let x = (#[trigger] c[i]).1;
        &&& c[i].0 == cid
        &&& x.output@ == cl.output@ + crate::game::mail_bytes(m1 + m2, cid, cl)
        &&& x.input == cl.input
        &&& x.output_offset == cl.output_offset
        &&& x.state == cl.state
        &&& x.team_name == cl.team_name
        &&& x.player_id == cl.player_id
        &&& x.queue == cl.queue
        &&& x.close_after_flush == cl.close_after_flush
        &&& x.active == g(i)
    } by {
        let _ = b[i];
        crate::game::lemma_mail_bytes_concat(m1, m2, a[i].0, a[i].1);
        crate::game::lemma_mail_bytes_same_state(m2, a[i].0, a[i].1, b[i].1);
        assert(c[i].1.output@ =~= a[i].1.output@ + crate::game::mail_bytes(m1 + m2, a[i].0, a[i].1));
    }
}

/// Queuing messages changes clients without changing what they run.
pub proof fn lemma_delivered_changed(a: Seq<(ClientId, Client)>, b: Seq<(ClientId, Client)>, m: Seq<Mail>)
    requires
        delivered(a, b, m),
    ensures
        clients_changed(a, b, m, |j: int| a[j].1.active),
{
    assert forall|i: int| 0 <= i < a.len() implies (#[trigger] b[i]).1.active == a[i].1.active by {
    }
}

/// Two descriptions of what the clients run that agree describe the same
/// change.
pub proof fn lemma_clients_changed_same_active(
    a: Seq<(ClientId, Client)>,
    b: Seq<(ClientId, Client)>,
    m: Seq<Mail>,
    f: spec_fn(int) -> Option<ActiveCommand>,
    g: spec_fn(int) -> Option<ActiveCommand>,
)
    requires
        clients_changed(a, b, m, f),
        forall|j: int| 0 <= j < a.len() ==> #[trigger] f(j) == g(j),
    ensures
        clients_changed(a, b, m, g),
{
    assert forall|i: int| 0 <= i < a.len() implies (#[trigger] b[i]).1.active == g(i) by {
        assert(f(i) == g(i));
    }
}

/// Clients that play the same players get the same failure messages.
proof fn lemma_failure_mail_tokens(a: Seq<(ClientId, Client)>, b: Seq<(ClientId, Client)>, ids: Seq<usize>, excluded: Option<usize>)
    requires
        forall|pid: usize| #[trigger] token_of(a, pid) == token_of(b, pid),
    ensures
        failure_mail(a, ids, excluded) == failure_mail(b, ids, excluded),
    decreases ids.len(),
{
    if ids.len() > 0 {
        lemma_failure_mail_tokens(a, b, ids.drop_last(), excluded);
        assert(token_of(a, ids.last()) == token_of(b, ids.last()));
    }
}

/// Clients changed without changing who plays whom keep their players.
proof fn lemma_changed_tokens(a: Seq<(ClientId, Client)>, b: Seq<(ClientId, Client)>, m: Seq<Mail>, f: spec_fn(int) -> Option<ActiveCommand>)
    requires
        clients_changed(a, b, m, f),
    ensures
        forall|pid: usize| #[trigger] token_of(a, pid) == token_of(b, pid),
{
    assert forall|pid: usize| #[trigger] token_of(a, pid) == token_of(b, pid) by {
        lemma_token_of_same_ids(a, b, pid);
    }
}

/// With strictly increasing identifiers, the incantation at `i` is the one
/// found by its identifier.
proof fn lemma_incantation_unique(incantations: Seq<Incantation>, i: int)
    requires
        crate::game::strictly_increasing(incantations.map_values(|c: Incantation| c.spec_id())),
        0 <= i < incantations.len(),
    ensures
        incantation_position(incantations, incantations[i].spec_id()) == Some(i),
    decreases incantations.len(),
{
    let ids = incantations.map_values(|c: Incantation| c.spec_id());
    if i > 0 {
        let rest = incantations.drop_first();
        assert(rest.map_values(|c: Incantation| c.spec_id()) =~= ids.drop_first());
        lemma_incantation_unique(rest, i - 1);
        assert(ids[0] < ids[i]);
    }
}

impl GameState {
    /// Cancels incantation `incantation_id` because player
    /// `excluded_player_id` left; an unknown incantation changes nothing.
    fn cancel_incantation(&mut self, incantation_id: usize, excluded_player_id: usize)
        requires
            old(self).wf(),
        ensures
            final(self).wf(),
            match incantation_position(old(self).incantations@, incantation_id) {
                None => *final(self) == *old(self),
                Some(i) => {
                    &&& final(self).incantations@ == old(self).incantations@.remove(i)
                    &&& cancelled(
                        GameState { incantations: final(self).incantations, ..*old(self) },
                        *final(self),
                        old(self).incantations@[i],
                        excluded_player_id,
                    )
                },
            },
    {
        let ghost before = *self;
        let i = match self.find_incantation(incantation_id) {
            Some(i) => i,
            None => return,
        };
        let incantation = self.incantations.remove(i);
        let ghost s0 = *self;
        proof {
            lemma_wf_without_incantation(before, s0, i as int);
        }
        self.clear_active_incantation(&incantation);
        let ghost s1 = *self;
        self.fail_incantation_record(incantation, Some(excluded_player_id));
        proof {
            let failure = failure_mail(s1.clients@, incantation.spec_participants(), Some(excluded_player_id))
                + seq![to_guis(pie_text(incantation.spec_x() as nat, incantation.spec_y() as nat, false))];
            let token = token_of(s0.clients@, incantation.spec_initiator());
            let f = |j: int| after_clearing(token, s0.clients@[j].0, s0.clients@[j].1.active, incantation.spec_id());
            lemma_changed_tokens(s0.clients@, s1.clients@, Seq::empty(), f);
            lemma_failure_mail_tokens(s0.clients@, s1.clients@, incantation.spec_participants(), Some(excluded_player_id));
            lemma_delivered_changed(s1.clients@, self.clients@, failure);
            lemma_clients_changed_chain(s0.clients@, s1.clients@, self.clients@, Seq::empty(), failure, f,
                |j: int| s1.clients@[j].1.active);
            assert(Seq::<Mail>::empty() + failure =~= failure);
            lemma_clients_changed_same_active(s0.clients@, self.clients@, failure, |j: int| s1.clients@[j].1.active, f);
            assert(self.player_ids() =~= s0.player_ids());
        }
    }
}


impl GameState {
    /// Cancels every incantation player `player_id` takes part in, in
    /// order.
    pub fn cancel_incantations_for_player(&mut self, player_id: usize)
        requires
            old(self).wf(),
        ensures
            final(self).wf(),
            cancelled_for_player(*old(self), *final(self), player_id),
    {
        let ghost start = *self;
        let ghost orig = self.incantations@;
        let ghost mut k: int = 0;
        let mut i: usize = 0;
        proof {
            assert(orig.take(0) =~= Seq::<Incantation>::empty());
            assert(orig.skip(0) =~= orig);
            assert(Seq::<Incantation>::empty() + orig =~= orig);
            lemma_delivered_nothing(start.clients@);
            lemma_delivered_changed(start.clients@, start.clients@, Seq::empty());
            lemma_clients_changed_same_active(start.clients@, start.clients@, Seq::empty(),
                |j: int| start.clients@[j].1.active,
                |j: int| cleared_by_all(start.clients@, start.clients@[j].0, start.clients@[j].1.active,
                    involving(orig.take(0), player_id)));
        }
        while i < self.incantations.len()
            invariant
                start.wf(),
                self.wf(),
                orig == start.incantations@,
                0 <= k <= orig.len(),
                i == not_involving(orig.take(k), player_id).len(),
                self.incantations@ == not_involving(orig.take(k), player_id) + orig.skip(k),
                self.players@ == released_by_all(start.players@, involving(orig.take(k), player_id)),
                clients_changed(
                    start.clients@,
                    self.clients@,
                    cancellation_mail(start.clients@, involving(orig.take(k), player_id), player_id),
                    |j: int| cleared_by_all(start.clients@, start.clients@[j].0, start.clients@[j].1.active,
                        involving(orig.take(k), player_id)),
                ),
                self.eggs@ == start.eggs@,
                self.teams@ == start.teams@,
                self.map == start.map,
                self.frequency == start.frequency,
                self.next_client_id == start.next_client_id,
                self.next_player_id == start.next_player_id,
                self.next_egg_id == start.next_egg_id,
                self.next_incantation_id == start.next_incantation_id,
                self.next_resource_spawn == start.next_resource_spawn,
                self.winner == start.winner,
                self.player_ids() == start.player_ids(),
            decreases self.incantations@.len() - i,
        {
            let ghost taken = orig.take(k);
            let ghost next = orig.take(k + 1);
            let ghost current = orig[k];
            let ghost gone = involving(taken, player_id);
            proof {
                assert(k < orig.len());
                assert(next.drop_last() =~= taken);
                assert(next.last() == current);
                assert(self.incantations@[i as int] == orig.skip(k)[0]);
                assert(orig.skip(k)[0] == current);
            }
            let involved = ids_contain(self.incantations[i].participants(), player_id);
            if involved {
                let id = self.incantations[i].id();
                let ghost s0 = *self;
                proof {
                    assert(self.incantations@.map_values(|c: Incantation| c.spec_id()) =~= self.incantation_ids());
                    lemma_incantation_unique(self.incantations@, i as int);
                }
                self.cancel_incantation(id, player_id);
                proof {
                    let token = token_of(s0.clients@, current.spec_initiator());
                    let failure = failure_mail(s0.clients@, current.spec_participants(), Some(player_id))
                        + seq![to_guis(pie_text(current.spec_x() as nat, current.spec_y() as nat, false))];
                    let f = |j: int| cleared_by_all(start.clients@, start.clients@[j].0, start.clients@[j].1.active, gone);
                    let g = |j: int| after_clearing(token, s0.clients@[j].0, s0.clients@[j].1.active, current.spec_id());
                    let h = |j: int| cleared_by_all(start.clients@, start.clients@[j].0, start.clients@[j].1.active,
                        gone.push(current));
                    assert(involving(next, player_id) == gone.push(current));
                    assert(not_involving(next, player_id) == not_involving(taken, player_id));
                    assert(self.incantations@ =~= not_involving(next, player_id) + orig.skip(k + 1));
                    assert(gone.push(current).drop_last() =~= gone);
                    lemma_changed_tokens(start.clients@, s0.clients@,
                        cancellation_mail(start.clients@, gone, player_id), f);
                    lemma_failure_mail_tokens(start.clients@, s0.clients@, current.spec_participants(), Some(player_id));
                    lemma_clients_changed_chain(start.clients@, s0.clients@, self.clients@,
                        cancellation_mail(start.clients@, gone, player_id), failure, f, g);
                    assert forall|j: int| 0 <= j < start.clients@.len() implies #[trigger] g(j) == h(j) by {
                        let _ = s0.clients@[j];
                    }
                    lemma_clients_changed_same_active(start.clients@, self.clients@,
                        cancellation_mail(start.clients@, gone, player_id) + failure, g, h);
                    assert(cancellation_mail(start.clients@, gone.push(current), player_id)
                        =~= cancellation_mail(start.clients@, gone, player_id) + failure);
                }
            } else {
                proof {
                    assert(involving(next, player_id) == involving(taken, player_id));
                    assert(not_involving(next, player_id) == not_involving(taken, player_id).push(current));
                    assert(self.incantations@ =~= not_involving(next, player_id) + orig.skip(k + 1));
                }
                i = i + 1;
            }
            proof {
                k = k + 1;
            }
        }
        proof {
            assert(k == orig.len());
            assert(orig.take(k) =~= orig);
            assert(orig.skip(k) =~= Seq::<Incantation>::empty());
            assert(self.incantations@ =~= not_involving(orig, player_id));
        }
    }
}


} // verus!

//! `Eject`: a player pushes every other player of its tile one step the
//! way it faces, and breaks the eggs lying there.
use vstd::prelude::*;

use crate::sound::{broadcast_direction, broadcast_direction_spec};
use crate::client::{Client, ClientId};
use crate::constants::{KO_RESPONSE, OK_RESPONSE};
use crate::entities::{forward_delta_spec, step_coordinate, Egg, Orientation, Player};
use crate::game::{
    delivered, lemma_delivered_chain, lemma_delivered_nothing, lemma_player_position_is,
    lemma_player_position_none, lemma_player_unique, lemma_token_of_same_ids, lemma_wf_only_sent,
    lemma_wf_replaced_player, player_position, to_client, to_guis, token_of, GameState, Mail,
};
use crate::gui_messages::{edi, pex, ppo_text, tagged_id_text};
use crate::incantation::{only_players_and_mail, to_player_mail};
use crate::text::{append, append_decimal, decimal};

verus! {

/// What an ejection acts on: the tile it starts from, the step the pushed
/// players take, and who and what is there.
pub struct EjectionContext {
    pub origin: (usize, usize),
    pub movement: (isize, isize),
    pub player_ids: Vec<usize>,
    pub egg_ids: Vec<usize>,
}

impl EjectionContext {
    /// There is a player to push or an egg to break.
    pub fn has_targets(&self) -> (has: bool)
        ensures
            has == (self.player_ids@.len() > 0 || self.egg_ids@.len() > 0),
    {
        self.player_ids.len() > 0 || self.egg_ids.len() > 0
    }
}

/// The players other than `ejector` standing on (`x`, `y`), in order.
pub open spec fn ejection_targets(players: Seq<Player>, ejector: usize, x: usize, y: usize) -> Seq<usize>
    decreases players.len(),
{
    if players.len() == 0 {
        Seq::empty()
    } else {
        let earlier = ejection_targets(players.drop_last(), ejector, x, y);
        let p = players.last();
        if p.id != ejector && p.x == x && p.y == y {
            earlier.push(p.id)
        } else {
            earlier
        }
    }
}

/// The eggs lying on (`x`, `y`), in order.
pub open spec fn eggs_at(eggs: Seq<Egg>, x: usize, y: usize) -> Seq<usize>
    decreases eggs.len(),
{
    if eggs.len() == 0 {
        Seq::empty()
    } else {
        let earlier = eggs_at(eggs.drop_last(), x, y);
        if eggs.last().x == x && eggs.last().y == y {
            earlier.push(eggs.last().id)
        } else {
            earlier
        }
    }
}

/// The eggs lying elsewhere than on (`x`, `y`), in order.
pub open spec fn eggs_elsewhere(eggs: Seq<Egg>, x: usize, y: usize) -> Seq<Egg>
    decreases eggs.len(),
{
    if eggs.len() == 0 {
        Seq::empty()
    } else {
        let earlier = eggs_elsewhere(eggs.drop_last(), x, y);
        if eggs.last().x == x && eggs.last().y == y {
            earlier
        } else {
            earlier.push(eggs.last())
        }
    }
}

/// Player `p` pushed one step of `delta` on a map of `width` by `height`.
pub open spec fn pushed(p: Player, delta: (int, int), width: nat, height: nat) -> Player {
    Player {
        x: ((p.x + delta.0) % (width as int)) as usize,
        y: ((p.y + delta.1) % (height as int)) as usize,
        ..p
    }
}

/// The players once those of `ids` are pushed.
pub open spec fn pushed_players(players: Seq<Player>, ids: Seq<usize>, delta: (int, int), width: nat, height: nat) -> Seq<Player> {
    players.map_values(|p: Player| if ids.contains(p.id) {
        pushed(p, delta, width, height)
    } else {
        p
    })
}

/// `eject: K`, told to a pushed player: where the push came from.
pub open spec fn eject_text(direction: nat) -> Seq<char> {
    "eject: "@ + decimal(direction) + "\n"@
}

/// For each of `ids`, in order, pushed from `origin`: the player is told
/// where the push came from, and the graphical clients see its new
/// position.
pub open spec fn push_mail(
    clients: Seq<(ClientId, Client)>,
    players: Seq<Player>,
    ids: Seq<usize>,
    delta: (int, int),
    origin: (usize, usize),
    width: nat,
    height: nat,
) -> Seq<Mail>
    decreases ids.len(),
{
    if ids.len() == 0 {
        Seq::empty()
    } else {
        let earlier = push_mail(clients, players, ids.drop_last(), delta, origin, width, height);
        match player_position(players, ids.last()) {
            Some(i) => {
                let q = pushed(players[i], delta, width, height);
                earlier + to_player_mail(
                    clients,
                    ids.last(),
                    eject_text(
                        broadcast_direction_spec(
                            (q.x as int, q.y as int),
                            q.orientation,
                            (origin.0 as int, origin.1 as int),
                            width as int,
                            height as int,
                        ),
                    ),
                ) + seq![to_guis(ppo_text(q))]
            },
            None => earlier,
        }
    }
}

/// `edi` for each of `ids`, in order.
pub open spec fn egg_mail(ids: Seq<usize>) -> Seq<Mail>
    decreases ids.len(),
{
    if ids.len() == 0 {
        Seq::empty()
    } else {
        egg_mail(ids.drop_last()) + seq![to_guis(tagged_id_text("edi"@, ids.last() as nat))]
    }
}

/// `after` is `before` once player `ejector` ejected for client
/// `client_id`: an unknown player, or one alone on its tile with no egg,
/// gets `ko`; otherwise the other players of its tile are pushed one step
/// its way and told so, the graphical clients see their new positions,
/// the eggs of the tile break (`edi` for each), the graphical clients see
/// `pex` and the client gets `ok`.
pub open spec fn ejected(before: GameState, after: GameState, client_id: ClientId, ejector: usize) -> bool {
    match player_position(before.players@, ejector) {
        None => after.only_sent(before, seq![to_client(client_id, KO_RESPONSE@)]),
        Some(i) => {
            let p = before.players@[i];
            let targets = ejection_targets(before.players@, ejector, p.x, p.y);
            let broken = eggs_at(before.eggs@, p.x, p.y);
            let delta = forward_delta_spec(p.orientation);
            let width = before.map.spec_width();
            let height = before.map.spec_height();
            if targets.len() == 0 && broken.len() == 0 {
                after.only_sent(before, seq![to_client(client_id, KO_RESPONSE@)])
            } else {
                let mail = push_mail(before.clients@, before.players@, targets, delta, (p.x, p.y), width, height)
                    + egg_mail(broken) + seq![
                    to_guis(tagged_id_text("pex"@, ejector as nat)),
                    to_client(client_id, OK_RESPONSE@),
                ];
                &&& after.players@ == pushed_players(before.players@, targets, delta, width, height)
                &&& after.eggs@ == eggs_elsewhere(before.eggs@, p.x, p.y)
                &&& delivered(before.clients@, after.clients@, mail)
                &&& after.teams@ == before.teams@
                &&& after.map == before.map
                &&& after.frequency == before.frequency
                &&& after.next_client_id == before.next_client_id
                &&& after.next_player_id == before.next_player_id
                &&& after.next_egg_id == before.next_egg_id
                &&& after.next_incantation_id == before.next_incantation_id
                &&& after.next_resource_spawn == before.next_resource_spawn
                &&& after.incantations@ == before.incantations@
                &&& after.winner == before.winner
            }
        },
    }
}

impl GameState {
    /// The players other than `ejector_id` standing on `origin`, in order.
    fn ejection_player_ids(&self, ejector_id: usize, origin: (usize, usize)) -> (ids: Vec<usize>)
        ensures
            ids@ == ejection_targets(self.players@, ejector_id, origin.0, origin.1),
    {
        let mut ids: Vec<usize> = Vec::new();
        let mut k: usize = 0;
        while k < self.players.len()
            invariant
                k <= self.players@.len(),
                ids@ == ejection_targets(self.players@.take(k as int), ejector_id, origin.0, origin.1),
            decreases self.players@.len() - k,
        {
            assert(self.players@.take(k + 1).drop_last() =~= self.players@.take(k as int));
            let p = &self.players[k];
            if p.id != ejector_id && p.x == origin.0 && p.y == origin.1 {
                ids.push(p.id);
            }
            k = k + 1;
        }
        assert(self.players@.take(k as int) =~= self.players@);
        ids
    }

    /// The eggs lying on `origin`, in order.
    fn ejection_egg_ids(&self, origin: (usize, usize)) -> (ids: Vec<usize>)
        ensures
            ids@ == eggs_at(self.eggs@, origin.0, origin.1),
    {
        let mut ids: Vec<usize> = Vec::new();
        let mut k: usize = 0;
        while k < self.eggs.len()
            invariant
                k <= self.eggs@.len(),
                ids@ == eggs_at(self.eggs@.take(k as int), origin.0, origin.1),
            decreases self.eggs@.len() - k,
        {
            assert(self.eggs@.take(k + 1).drop_last() =~= self.eggs@.take(k as int));
            if self.eggs[k].x == origin.0 && self.eggs[k].y == origin.1 {
                ids.push(self.eggs[k].id);
            }
            k = k + 1;
        }
        assert(self.eggs@.take(k as int) =~= self.eggs@);
        ids
    }

    /// What an ejection by `ejector_id` acts on; none for an unknown
    /// player.
    fn prepare_ejection(&self, ejector_id: usize) -> (context: Option<EjectionContext>)
        ensures
            match player_position(self.players@, ejector_id) {
                None => context is None,
                Some(i) => {
                    let p = self.players@[i];
                    &&& context matches Some(c)
                    &&& c.origin == (p.x, p.y)
                    &&& c.movement == (forward_delta_spec(p.orientation).0 as isize, forward_delta_spec(
                        p.orientation,
                    ).1 as isize)
                    &&& c.player_ids@ == ejection_targets(self.players@, ejector_id, p.x, p.y)
                    &&& c.egg_ids@ == eggs_at(self.eggs@, p.x, p.y)
                },
            },
    {
        let i = self.find_player(ejector_id)?;
        let origin = (self.players[i].x, self.players[i].y);
        let movement = self.players[i].orientation.forward_delta();
        Some(
            EjectionContext {
                origin,
                movement,
                player_ids: self.ejection_player_ids(ejector_id, origin),
                egg_ids: self.ejection_egg_ids(origin),
            },
        )
    }
}


/// Players with strictly increasing identifiers give targets with strictly
/// increasing identifiers, each the identifier of a player.
proof fn lemma_targets_increasing(players: Seq<Player>, ejector: usize, x: usize, y: usize)
    requires
        crate::game::strictly_increasing(players.map_values(|p: Player| p.id)),
    ensures
        crate::game::strictly_increasing(ejection_targets(players, ejector, x, y)),
        forall|k: int| 0 <= k < ejection_targets(players, ejector, x, y).len() ==> exists|j: int|
            0 <= j < players.len() && players[j].id == #[trigger] ejection_targets(players, ejector, x, y)[k],
    decreases players.len(),
{
    if players.len() > 0 {
        let rest = players.drop_last();
        assert(rest.map_values(|p: Player| p.id) =~= players.map_values(|p: Player| p.id).drop_last());
        lemma_targets_increasing(rest, ejector, x, y);
        let earlier = ejection_targets(rest, ejector, x, y);
        let ids = players.map_values(|p: Player| p.id);
        assert forall|k: int| 0 <= k < earlier.len() implies earlier[k] < players.last().id by {
            let j = choose|j: int| 0 <= j < rest.len() && rest[j].id == earlier[k];
            assert(ids[j] == rest[j].id);
            assert(ids[players.len() - 1] == players.last().id);
        }
        let all = ejection_targets(players, ejector, x, y);
        assert forall|k: int| 0 <= k < all.len() implies exists|j: int|
            0 <= j < players.len() && players[j].id == #[trigger] all[k] by {
            if k < earlier.len() {
                let j = choose|j: int| 0 <= j < rest.len() && rest[j].id == earlier[k];
                assert(players[j] == rest[j]);
            } else {
                assert(players[players.len() - 1].id == all[k]);
            }
        }
    }
}

/// An identifier is among the targets exactly when some player other than
/// the ejector with that identifier stands on the tile.
proof fn lemma_targets_contain(players: Seq<Player>, ejector: usize, x: usize, y: usize, id: usize)
    ensures
        ejection_targets(players, ejector, x, y).contains(id) <==> exists|k: int|
            0 <= k < players.len() && (#[trigger] players[k]).id == id && id != ejector && players[k].x == x
                && players[k].y == y,
    decreases players.len(),
{
    if players.len() > 0 {
        let rest = players.drop_last();
        lemma_targets_contain(rest, ejector, x, y, id);
        let earlier = ejection_targets(rest, ejector, x, y);
        let all = ejection_targets(players, ejector, x, y);
        let last = players.last();
        let n = players.len() - 1;
        if all.contains(id) {
            let w = choose|w: int| 0 <= w < all.len() && all[w] == id;
            if w < earlier.len() {
                assert(earlier[w] == all[w]);
                assert(earlier.contains(id));
                let k = choose|k: int|
                    0 <= k < rest.len() && (#[trigger] rest[k]).id == id && id != ejector && rest[k].x == x
                        && rest[k].y == y;
                assert(players[k] == rest[k]);
            } else {
                assert(players[n] == last);
            }
        }
        if exists|k: int|
            0 <= k < players.len() && (#[trigger] players[k]).id == id && id != ejector && players[k].x == x
                && players[k].y == y {
            let k = choose|k: int|
                0 <= k < players.len() && (#[trigger] players[k]).id == id && id != ejector && players[k].x == x
                    && players[k].y == y;
            if k < n {
                assert(rest[k] == players[k]);
                assert(earlier.contains(id));
                let w = choose|w: int| 0 <= w < earlier.len() && earlier[w] == id;
                if last.id != ejector && last.x == x && last.y == y {
                    assert(all[w] == earlier[w]);
                }
                assert(all.contains(id));
            } else {
                assert(players[k] == last);
                assert(all[all.len() - 1] == id);
                assert(all.contains(id));
            }
        }
    }
}

/// After an `Eject` by a player facing some way from its tile, every other
/// player that stood on that tile stands one step further that way (north
/// lowers the row, east raises the column), wrapped around the map, and
/// keeps all else; every player elsewhere, and the ejector, stays as it was.
pub proof fn lemma_eject_pushes_ahead(
    before: GameState,
    after: GameState,
    client_id: ClientId,
    ejector: usize,
    j: int,
)
    requires
        before.wf(),
        ejected(before, after, client_id, ejector),
        player_position(before.players@, ejector) is Some,
        0 <= j < before.players@.len(),
    ensures
        ({
            let e = before.players@[player_position(before.players@, ejector)->0];
            let q = before.players@[j];
            let (dx, dy) = match e.orientation {
                Orientation::North => (0int, -1int),
                Orientation::East => (1int, 0int),
                Orientation::South => (0int, 1int),
                Orientation::West => (-1int, 0int),
            };
            &&& after.players@.len() == before.players@.len()
            &&& if q.id != ejector && q.x == e.x && q.y == e.y {
                after.players@[j] == Player {
                    x: ((q.x + dx) % (before.map.spec_width() as int)) as usize,
                    y: ((q.y + dy) % (before.map.spec_height() as int)) as usize,
                    ..q
                }
            } else {
                after.players@[j] == q
            }
        }),
{
    let players = before.players@;
    let i = player_position(players, ejector)->0;
    lemma_player_position_is(players, ejector, i);
    let e = players[i];
    let q = players[j];
    let targets = ejection_targets(players, ejector, e.x, e.y);
    lemma_targets_contain(players, ejector, e.x, e.y, q.id);
    let ids = before.player_ids();
    if q.id != ejector && q.x == e.x && q.y == e.y {
        assert(targets.contains(q.id));
        assert(targets.len() > 0) by {
            let w = choose|w: int| 0 <= w < targets.len() && targets[w] == q.id;
        }
    } else if targets.contains(q.id) {
        let k = choose|k: int|
            0 <= k < players.len() && (#[trigger] players[k]).id == q.id && q.id != ejector && players[k].x == e.x
                && players[k].y == e.y;
        assert(ids[k] == players[k].id && ids[j] == players[j].id);
        assert(k == j);
    }
}

/// Pushing one more player pushes the longer list, when it was not pushed
/// yet.
proof fn lemma_pushed_step(players: Seq<Player>, taken: Seq<usize>, id: usize, delta: (int, int), width: nat, height: nat)
    requires
        !taken.contains(id),
    ensures
        pushed_players(pushed_players(players, taken, delta, width, height), seq![id], delta, width, height)
            == pushed_players(players, taken.push(id), delta, width, height),
{
    let next = taken.push(id);
    assert forall|j: int| 0 <= j < players.len() implies #[trigger] pushed_players(
        pushed_players(players, taken, delta, width, height),
        seq![id],
        delta,
        width,
        height,
    )[j] == pushed_players(players, next, delta, width, height)[j] by {
        let p = players[j];
        assert(next.contains(p.id) == (taken.contains(p.id) || p.id == id)) by {
            if next.contains(p.id) {
                let w = choose|w: int| 0 <= w < next.len() && next[w] == p.id;
                if w < taken.len() {
                    assert(taken[w] == next[w]);
                }
            }
            if taken.contains(p.id) {
                let w = choose|w: int| 0 <= w < taken.len() && taken[w] == p.id;
                assert(next[w] == taken[w]);
            }
            if p.id == id {
                assert(next[taken.len() as int] == id);
            }
        }
        assert(seq![id].contains(p.id) == (p.id == id)) by {
            assert(seq![id][0] == id);
        }
    }
    assert(pushed_players(pushed_players(players, taken, delta, width, height), seq![id], delta, width, height)
        =~= pushed_players(players, next, delta, width, height));
}

impl GameState {
    /// Pushes player `player_id` one step of `movement`; returns where it
    /// lands and how it faces, none for an unknown player.
    fn move_ejected_player(&mut self, player_id: usize, movement: (isize, isize)) -> (landing: Option<((usize, usize), Orientation)>)
        requires
            old(self).wf(),
            -1 <= movement.0 <= 1,
            -1 <= movement.1 <= 1,
        ensures
            final(self).wf(),
            match player_position(old(self).players@, player_id) {
                None => landing is None && *final(self) == *old(self),
                Some(i) => {
                    let q = pushed(
                        old(self).players@[i],
                        (movement.0 as int, movement.1 as int),
                        old(self).map.spec_width(),
                        old(self).map.spec_height(),
                    );
                    &&& landing == Some(((q.x, q.y), q.orientation))
                    &&& final(self).replaced_player(*old(self), i, q)
                    &&& final(self).clients == old(self).clients
                },
            },
    {
        let ghost start = *self;
        let i = match self.find_player(player_id) {
            Some(i) => i,
            None => return None,
        };
        let width = self.map.width();
        let height = self.map.height();
        let x = step_coordinate(self.players[i].x, movement.0, width);
        let y = step_coordinate(self.players[i].y, movement.1, height);
        self.players[i].x = x;
        self.players[i].y = y;
        proof {
            lemma_player_position_is(start.players@, player_id, i as int);
            let q = pushed(start.players@[i as int], (movement.0 as int, movement.1 as int), width as nat, height as nat);
            assert(self.players@ =~= start.players@.update(i as int, q));
            lemma_delivered_nothing(start.clients@);
            lemma_wf_replaced_player(start, *self, i as int, q, Seq::empty());
        }
        Some(((x, y), self.players[i].orientation))
    }

    /// Tells player `player_id`, pushed to `position` while facing
    /// `orientation`, where the push came from.
    fn notify_ejected_player(&mut self, player_id: usize, position: (usize, usize), orientation: Orientation, origin: (usize, usize))
        requires
            old(self).wf(),
            old(self).map.contains(position.0 as int, position.1 as int),
            old(self).map.contains(origin.0 as int, origin.1 as int),
        ensures
            final(self).wf(),
            final(self).only_sent(
                *old(self),
                to_player_mail(
                    old(self).clients@,
                    player_id,
                    eject_text(
                        broadcast_direction_spec(
                            (position.0 as int, position.1 as int),
                            orientation,
                            (origin.0 as int, origin.1 as int),
                            old(self).map.spec_width() as int,
                            old(self).map.spec_height() as int,
                        ),
                    ),
                ),
            ),
    {
        let direction = broadcast_direction(position, orientation, origin, self.map.width(), self.map.height());
        let mut text = String::new();
        append(&mut text, "eject: ");
        append_decimal(&mut text, direction);
        append(&mut text, "\n");
        self.queue_to_player(player_id, text.as_str());
    }

    /// Pushes player `player_id` as `context` says, tells it, and shows
    /// the graphical clients its new position.
    fn eject_player(&mut self, player_id: usize, context: &EjectionContext)
        requires
            old(self).wf(),
            -1 <= context.movement.0 <= 1,
            -1 <= context.movement.1 <= 1,
            old(self).map.contains(context.origin.0 as int, context.origin.1 as int),
        ensures
            final(self).wf(),
            final(self).players@ == pushed_players(
                old(self).players@,
                seq![player_id],
                (context.movement.0 as int, context.movement.1 as int),
                old(self).map.spec_width(),
                old(self).map.spec_height(),
            ),
            only_players_and_mail(
                *old(self),
                *final(self),
                push_mail(
                    old(self).clients@,
                    old(self).players@,
                    seq![player_id],
                    (context.movement.0 as int, context.movement.1 as int),
                    context.origin,
                    old(self).map.spec_width(),
                    old(self).map.spec_height(),
                ),
            ),
    {
        let ghost start = *self;
        let ghost delta = (context.movement.0 as int, context.movement.1 as int);
        let ghost width = self.map.spec_width();
        let ghost height = self.map.spec_height();
        proof {
            reveal_with_fuel(push_mail, 2);
            assert(seq![player_id].drop_last() =~= Seq::<usize>::empty());
            assert(seq![player_id].contains(player_id)) by {
                assert(seq![player_id][0] == player_id);
            }
        }
        let (position, orientation) = match self.move_ejected_player(player_id, context.movement) {
            Some(landing) => landing,
            None => {
                proof {
                    assert forall|j: int| 0 <= j < start.players@.len() implies #[trigger] start.players@[j]
                        == pushed_players(start.players@, seq![player_id], delta, width, height)[j] by {
                        lemma_player_position_none(start.players@, player_id, j);
                        if seq![player_id].contains(start.players@[j].id) {
                            assert(seq![player_id][0] == player_id);
                        }
                    }
                    assert(start.players@ =~= pushed_players(start.players@, seq![player_id], delta, width, height));
                    lemma_delivered_nothing(start.clients@);
                    assert(push_mail(start.clients@, start.players@, seq![player_id], delta, context.origin, width, height)
                        =~= Seq::<Mail>::empty());
                }
                return;
            },
        };
        let ghost s1 = *self;
        proof {
            let i = player_position(start.players@, player_id)->0;
            lemma_player_position_is(start.players@, player_id, i);
            assert(start.players@.map_values(|p: Player| p.id) =~= start.player_ids());
            lemma_player_unique(start.players@, i);
            assert forall|j: int| 0 <= j < start.players@.len() implies #[trigger] s1.players@[j]
                == pushed_players(start.players@, seq![player_id], delta, width, height)[j] by {
                assert(seq![player_id].contains(start.players@[j].id) == (start.players@[j].id == player_id)) by {
                    assert(seq![player_id][0] == player_id);
                }
            }
            assert(s1.players@ =~= pushed_players(start.players@, seq![player_id], delta, width, height));
            assert forall|j: int| 0 <= j < s1.players@.len() implies (#[trigger] s1.players@[j]).id
                == start.players@[j].id by {
                let _ = start.players@[j];
            }
            crate::elevation::lemma_player_position_same_ids(s1.players@, start.players@, player_id);
        }
        self.notify_ejected_player(player_id, position, orientation, context.origin);
        let ghost s2 = *self;
        self.broadcast_player_position(player_id);
        proof {
            let i = player_position(start.players@, player_id)->0;
            let q = pushed(start.players@[i], delta, width, height);
            let told = to_player_mail(s1.clients@, player_id, eject_text(
                broadcast_direction_spec((q.x as int, q.y as int), q.orientation,
                    (context.origin.0 as int, context.origin.1 as int), width as int, height as int)));
            lemma_wf_only_sent(s2, *self, seq![to_guis(ppo_text(q))]);
            lemma_delivered_chain(s1.clients@, s2.clients@, self.clients@, told, seq![to_guis(ppo_text(q))]);
            assert(Seq::<Mail>::empty() + (told + seq![to_guis(ppo_text(q))]) =~= told + seq![to_guis(ppo_text(q))]);
            assert(self.player_ids() =~= start.player_ids()) by {
                assert forall|j: int| 0 <= j < self.players@.len() implies #[trigger] self.player_ids()[j]
                    == start.player_ids()[j] by {
                    let _ = start.players@[j];
                }
            }
        }
    }

    /// Pushes every player of `context`, in order.
    fn eject_players(&mut self, context: &EjectionContext)
        requires
            old(self).wf(),
            -1 <= context.movement.0 <= 1,
            -1 <= context.movement.1 <= 1,
            old(self).map.contains(context.origin.0 as int, context.origin.1 as int),
            crate::game::strictly_increasing(context.player_ids@),
        ensures
            final(self).wf(),
            final(self).players@ == pushed_players(
                old(self).players@,
                context.player_ids@,
                (context.movement.0 as int, context.movement.1 as int),
                old(self).map.spec_width(),
                old(self).map.spec_height(),
            ),
            only_players_and_mail(
                *old(self),
                *final(self),
                push_mail(
                    old(self).clients@,
                    old(self).players@,
                    context.player_ids@,
                    (context.movement.0 as int, context.movement.1 as int),
                    context.origin,
                    old(self).map.spec_width(),
                    old(self).map.spec_height(),
                ),
            ),
    {
        let ghost start = *self;
        let ghost delta = (context.movement.0 as int, context.movement.1 as int);
        let ghost width = self.map.spec_width();
        let ghost height = self.map.spec_height();
        let ids = &context.player_ids;
        let mut k: usize = 0;
        proof {
            lemma_delivered_nothing(self.clients@);
            assert(ids@.take(0) =~= Seq::<usize>::empty());
            assert(pushed_players(start.players@, Seq::empty(), delta, width, height) =~= start.players@);
        }
        while k < ids.len()
            invariant
                start.wf(),
                self.wf(),
                k <= ids@.len(),
                ids@ == context.player_ids@,
                crate::game::strictly_increasing(ids@),
                delta == (context.movement.0 as int, context.movement.1 as int),
                -1 <= context.movement.0 <= 1,
                -1 <= context.movement.1 <= 1,
                width == start.map.spec_width(),
                height == start.map.spec_height(),
                self.map == start.map,
                start.map.contains(context.origin.0 as int, context.origin.1 as int),
                self.players@ == pushed_players(start.players@, ids@.take(k as int), delta, width, height),
                only_players_and_mail(
                    start,
                    *self,
                    push_mail(start.clients@, start.players@, ids@.take(k as int), delta, context.origin, width, height),
                ),
            decreases ids@.len() - k,
        {
            let id = ids[k];
            let ghost taken = ids@.take(k as int);
            let ghost next = ids@.take(k + 1);
            assert(next =~= taken.push(id));
            assert(!taken.contains(id)) by {
                if taken.contains(id) {
                    let w = choose|w: int| 0 <= w < taken.len() && taken[w] == id;
                    assert(ids@[w] < ids@[k as int]);
                }
            }
            let ghost s0 = *self;
            proof {
                assert(s0.players@.len() == start.players@.len());
                assert forall|j: int| 0 <= j < s0.players@.len() implies (#[trigger] s0.players@[j]).id
                    == start.players@[j].id by {
                    let _ = start.players@[j];
                }
                crate::elevation::lemma_player_position_same_ids(s0.players@, start.players@, id);
                assert forall|pid: usize| #[trigger] token_of(start.clients@, pid) == token_of(s0.clients@, pid) by {
                    lemma_token_of_same_ids(start.clients@, s0.clients@, pid);
                }
            }
            self.eject_player(id, context);
            proof {
                lemma_pushed_step(start.players@, taken, id, delta, width, height);
                let single = push_mail(s0.clients@, s0.players@, seq![id], delta, context.origin, width, height);
                lemma_delivered_chain(start.clients@, s0.clients@, self.clients@,
                    push_mail(start.clients@, start.players@, taken, delta, context.origin, width, height), single);
                assert(next.drop_last() =~= taken);
                reveal_with_fuel(push_mail, 2);
                assert(seq![id].drop_last() =~= Seq::<usize>::empty());
                match player_position(start.players@, id) {
                    Some(i) => {
                        lemma_player_position_is(start.players@, id, i);
                        assert(s0.players@[i] == pushed_players(start.players@, taken, delta, width, height)[i]);
                        assert(s0.players@[i] == start.players@[i]);
                        assert(Seq::<Mail>::empty() + to_player_mail(s0.clients@, id, eject_text(
                            broadcast_direction_spec(
                                (pushed(s0.players@[i], delta, width, height).x as int, pushed(s0.players@[i], delta, width, height).y as int),
                                pushed(s0.players@[i], delta, width, height).orientation,
                                (context.origin.0 as int, context.origin.1 as int), width as int, height as int)))
                            + seq![to_guis(ppo_text(pushed(s0.players@[i], delta, width, height)))]
                            =~= to_player_mail(s0.clients@, id, eject_text(
                            broadcast_direction_spec(
                                (pushed(s0.players@[i], delta, width, height).x as int, pushed(s0.players@[i], delta, width, height).y as int),
                                pushed(s0.players@[i], delta, width, height).orientation,
                                (context.origin.0 as int, context.origin.1 as int), width as int, height as int)))
                            + seq![to_guis(ppo_text(pushed(s0.players@[i], delta, width, height)))]);
                        assert(push_mail(start.clients@, start.players@, next, delta, context.origin, width, height)
                            =~= push_mail(start.clients@, start.players@, taken, delta, context.origin, width, height) + single);
                    },
                    None => {
                        assert(push_mail(start.clients@, start.players@, next, delta, context.origin, width, height)
                            =~= push_mail(start.clients@, start.players@, taken, delta, context.origin, width, height) + single);
                    },
                }
                assert(self.player_ids() =~= start.player_ids());
            }
            k = k + 1;
        }
        assert(ids@.take(ids@.len() as int) =~= ids@);
    }
}


/// A copy of `egg`.
fn copy_egg(egg: &Egg) -> (copy: Egg)
    ensures
        copy == *egg,
{
    Egg { id: egg.id, parent_id: egg.parent_id, team_name: egg.team_name.clone(), x: egg.x, y: egg.y }
}

impl GameState {
    /// Breaks the eggs `egg_ids` lying on `origin`: they are removed, and
    /// the graphical clients see `edi` for each.
    fn destroy_ejected_eggs(&mut self, origin: (usize, usize), egg_ids: &Vec<usize>)
        requires
            old(self).wf(),
            egg_ids@ == eggs_at(old(self).eggs@, origin.0, origin.1),
        ensures
            final(self).wf(),
            final(self).eggs@ == eggs_elsewhere(old(self).eggs@, origin.0, origin.1),
            (GameState { eggs: old(self).eggs, ..*final(self) }).only_sent(*old(self), egg_mail(egg_ids@)),
    {
        let ghost start = *self;
        let mut kept: Vec<Egg> = Vec::new();
        let mut k: usize = 0;
        while k < self.eggs.len()
            invariant
                *self == start,
                start.wf(),
                k <= self.eggs@.len(),
                kept@ == eggs_elsewhere(self.eggs@.take(k as int), origin.0, origin.1),
                forall|m: int| 0 <= m < kept@.len() ==> exists|j: int| 0 <= j < k && #[trigger] kept@[m] == self.eggs@[j],
                crate::game::strictly_increasing(kept@.map_values(|e: Egg| e.id)),
            decreases self.eggs@.len() - k,
        {
            assert(self.eggs@.take(k + 1).drop_last() =~= self.eggs@.take(k as int));
            if !(self.eggs[k].x == origin.0 && self.eggs[k].y == origin.1) {
                let ghost before = kept@;
                kept.push(copy_egg(&self.eggs[k]));
                proof {
                    let ids = self.egg_ids();
                    assert(kept@ == before.push(self.eggs@[k as int]));
                    assert forall|m: int| 0 <= m < kept@.len() implies exists|j: int| 0 <= j < k + 1 && #[trigger] kept@[m]
                        == self.eggs@[j] by {
                        if m < before.len() {
                            let j = choose|j: int| 0 <= j < k && before[m] == self.eggs@[j];
                            assert(kept@[m] == self.eggs@[j]);
                        } else {
                            assert(kept@[m] == self.eggs@[k as int]);
                        }
                    }
                    let kids = kept@.map_values(|e: Egg| e.id);
                    assert forall|a: int, b: int| 0 <= a < b < kids.len() implies kids[a] < kids[b] by {
                        if b < before.len() {
                            assert(kids[a] == before.map_values(|e: Egg| e.id)[a]);
                            assert(kids[b] == before.map_values(|e: Egg| e.id)[b]);
                        } else {
                            let j = choose|j: int| 0 <= j < k && before[a] == self.eggs@[j];
                            assert(ids[j] < ids[k as int]);
                            assert(kids[a] == self.eggs@[j].id);
                        }
                    }
                }
            }
            k = k + 1;
        }
        assert(self.eggs@.take(k as int) =~= self.eggs@);
        self.eggs = kept;
        proof {
            assert(self.egg_ids() =~= self.eggs@.map_values(|e: Egg| e.id));
            assert forall|j: int| 0 <= j < self.eggs@.len() implies (#[trigger] self.eggs@[j]).id < self.next_egg_id
                && self.map.contains(self.eggs@[j].x as int, self.eggs@[j].y as int) by {
                let m = choose|m: int| 0 <= m < start.eggs@.len() && self.eggs@[j] == start.eggs@[m];
                let _ = start.eggs@[m];
            }
            lemma_delivered_nothing(self.clients@);
        }
        let ghost removed = *self;
        let mut n: usize = 0;
        proof {
            assert(egg_ids@.take(0) =~= Seq::<usize>::empty());
        }
        while n < egg_ids.len()
            invariant
                removed.wf(),
                self.wf(),
                n <= egg_ids@.len(),
                self.only_sent(removed, egg_mail(egg_ids@.take(n as int))),
            decreases egg_ids@.len() - n,
        {
            let ghost s0 = *self;
            let message = edi(egg_ids[n]);
            self.broadcast_to_guis(message.as_str());
            proof {
                lemma_wf_only_sent(s0, *self, seq![to_guis(message@)]);
                lemma_delivered_chain(removed.clients@, s0.clients@, self.clients@,
                    egg_mail(egg_ids@.take(n as int)), seq![to_guis(message@)]);
                assert(egg_ids@.take(n + 1).drop_last() =~= egg_ids@.take(n as int));
            }
            n = n + 1;
        }
        assert(egg_ids@.take(n as int) =~= egg_ids@);
    }

    /// Carries out an ejection by `ejector_id` for client `client_id`.
    fn complete_ejection(&mut self, client_id: ClientId, ejector_id: usize, context: EjectionContext)
        requires
            old(self).wf(),
            -1 <= context.movement.0 <= 1,
            -1 <= context.movement.1 <= 1,
            old(self).map.contains(context.origin.0 as int, context.origin.1 as int),
            crate::game::strictly_increasing(context.player_ids@),
            context.egg_ids@ == eggs_at(old(self).eggs@, context.origin.0, context.origin.1),
        ensures
            final(self).wf(),
            final(self).players@ == pushed_players(
                old(self).players@,
                context.player_ids@,
                (context.movement.0 as int, context.movement.1 as int),
                old(self).map.spec_width(),
                old(self).map.spec_height(),
            ),
            final(self).eggs@ == eggs_elsewhere(old(self).eggs@, context.origin.0, context.origin.1),
            delivered(
                old(self).clients@,
                final(self).clients@,
                push_mail(
                    old(self).clients@,
                    old(self).players@,
                    context.player_ids@,
                    (context.movement.0 as int, context.movement.1 as int),
                    context.origin,
                    old(self).map.spec_width(),
                    old(self).map.spec_height(),
                ) + egg_mail(context.egg_ids@) + seq![
                    to_guis(tagged_id_text("pex"@, ejector_id as nat)),
                    to_client(client_id, OK_RESPONSE@),
                ],
            ),
            final(self).teams@ == old(self).teams@,
            final(self).map == old(self).map,
            final(self).frequency == old(self).frequency,
            final(self).next_client_id == old(self).next_client_id,
            final(self).next_player_id == old(self).next_player_id,
            final(self).next_egg_id == old(self).next_egg_id,
            final(self).next_incantation_id == old(self).next_incantation_id,
            final(self).next_resource_spawn == old(self).next_resource_spawn,
            final(self).incantations@ == old(self).incantations@,
            final(self).winner == old(self).winner,
    {
        let ghost s0 = *self;
        self.eject_players(&context);
        let ghost s1 = *self;
        self.destroy_ejected_eggs(context.origin, &context.egg_ids);
        let ghost s2 = *self;
        let message = pex(ejector_id);
        self.broadcast_to_guis(message.as_str());
        let ghost s3 = *self;
        proof {
            lemma_wf_only_sent(s2, s3, seq![to_guis(message@)]);
        }
        self.queue_to_client(client_id, OK_RESPONSE);
        proof {
            lemma_wf_only_sent(s3, *self, seq![to_client(client_id, OK_RESPONSE@)]);
            let pushes = push_mail(s0.clients@, s0.players@, context.player_ids@,
                (context.movement.0 as int, context.movement.1 as int), context.origin,
                s0.map.spec_width(), s0.map.spec_height());
            lemma_delivered_chain(s0.clients@, s1.clients@, s2.clients@, pushes, egg_mail(context.egg_ids@));
            lemma_delivered_chain(s0.clients@, s2.clients@, s3.clients@, pushes + egg_mail(context.egg_ids@),
                seq![to_guis(message@)]);
            lemma_delivered_chain(s0.clients@, s3.clients@, self.clients@,
                pushes + egg_mail(context.egg_ids@) + seq![to_guis(message@)],
                seq![to_client(client_id, OK_RESPONSE@)]);
            assert(pushes + egg_mail(context.egg_ids@) + seq![to_guis(message@)] + seq![to_client(client_id, OK_RESPONSE@)]
                =~= pushes + egg_mail(context.egg_ids@) + seq![
                    to_guis(tagged_id_text("pex"@, ejector_id as nat)),
                    to_client(client_id, OK_RESPONSE@),
                ]);
        }
    }

    /// Player `ejector_id` ejects, for client `client_id`.
    pub fn execute_eject(&mut self, client_id: ClientId, ejector_id: usize)
        requires
            old(self).wf(),
        ensures
            final(self).wf(),
            ejected(*old(self), *final(self), client_id, ejector_id),
    {
        let ghost start = *self;
        match self.prepare_ejection(ejector_id) {
            Some(context) => {
                if context.has_targets() {
                    proof {
                        let i = player_position(start.players@, ejector_id)->0;
                        lemma_player_position_is(start.players@, ejector_id, i);
                        let p = start.players@[i];
                        assert(start.players@.map_values(|q: Player| q.id) =~= start.player_ids());
                        lemma_targets_increasing(start.players@, ejector_id, p.x, p.y);
                    }
                    self.complete_ejection(client_id, ejector_id, context);
                    return;
                }
            },
            None => {},
        }
        self.queue_to_client(client_id, KO_RESPONSE);
        proof {
            lemma_wf_only_sent(start, *self, seq![to_client(client_id, KO_RESPONSE@)]);
        }
    }
}

} // verus!

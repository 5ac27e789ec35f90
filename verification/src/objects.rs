//! Taking and dropping objects, and laying eggs.
use vstd::prelude::*;

use crate::authentication::team_eggs;
use crate::client::ClientId;
use crate::constants::{KO_RESPONSE, OK_RESPONSE};
use crate::entities::{Egg, Player};
use crate::game::{
    delivered, lemma_delivered_chain, lemma_wf_only_sent,
    player_position, to_client, to_guis, GameState, Mail,
};
use crate::gui_messages::{
    bct, bct_for, enw, enw_text, pgt, pin, pin_text, pdr, resource_event_text,
};
use crate::world::{GameMap, Resource};

verus! {

/// Player `before` took one `resource` from its tile: the map lost it, the
/// player gained it, nothing else changed.
pub open spec fn took(before: Player, after: Player, map: GameMap, new_map: GameMap, resource: Resource) -> bool {
    let tile = map.tile(before.x as int, before.y as int);
    &&& map.with_tile(new_map, before.x as int, before.y as int, tile.minus_one(resource))
    &&& new_map.wf()
    &&& after == (Player { inventory: before.inventory.plus_one(resource), ..before })
}

/// Player `before` dropped one `resource` on its tile.
pub open spec fn dropped(before: Player, after: Player, map: GameMap, new_map: GameMap, resource: Resource) -> bool {
    let tile = map.tile(before.x as int, before.y as int);
    &&& map.with_tile(new_map, before.x as int, before.y as int, tile.plus_one(resource))
    &&& new_map.wf()
    &&& after == (Player { inventory: before.inventory.minus_one(resource), ..before })
}

/// The player takes one `resource` from its tile; false, and nothing
/// changes, when the tile has none or the player stands off the map.
pub fn take_object(player: &mut Player, map: &mut GameMap, resource: Resource) -> (success: bool)
    requires
        old(map).wf(),
    ensures
        success == (old(map).contains(old(player).x as int, old(player).y as int) && old(map).tile(
            old(player).x as int,
            old(player).y as int,
        ).count(resource) > 0),
        success ==> took(*old(player), *final(player), *old(map), *final(map), resource),
        !success ==> *final(player) == *old(player) && *final(map) == *old(map),
{
    let mut tile = match map.get_tile(player.x, player.y) {
        Some(tile) => *tile,
        None => return false,
    };
    if !tile.remove(resource) {
        return false;
    }
    map.set_tile(player.x, player.y, tile);
    player.inventory.add(resource);
    true
}

/// The player drops one `resource` on its tile; false, and nothing
/// changes, when it carries none or stands off the map.
pub fn set_object(player: &mut Player, map: &mut GameMap, resource: Resource) -> (success: bool)
    requires
        old(map).wf(),
    ensures
        success == (old(player).inventory.count(resource) > 0 && old(map).contains(
            old(player).x as int,
            old(player).y as int,
        )),
        success ==> dropped(*old(player), *final(player), *old(map), *final(map), resource),
        !success ==> *final(player) == *old(player) && *final(map) == *old(map),
{
    let before = player.inventory;
    if !player.inventory.remove(resource) {
        return false;
    }
    let mut tile = match map.get_tile(player.x, player.y) {
        Some(tile) => *tile,
        None => {
            player.inventory = before;
            return false;
        },
    };
    tile.add(resource);
    map.set_tile(player.x, player.y, tile);
    true
}

/// Taking an object and dropping it again leaves the player and the map
/// as they were, when the player could carry one more.
pub proof fn lemma_take_then_set(
    start: Player,
    holding: Player,
    end: Player,
    map: GameMap,
    taken: GameMap,
    restored: GameMap,
    resource: Resource,
)
    requires
        map.wf(),
        map.contains(start.x as int, start.y as int),
        map.tile(start.x as int, start.y as int).count(resource) > 0,
        start.inventory.count(resource) < usize::MAX,
        took(start, holding, map, taken, resource),
        dropped(holding, end, taken, restored, resource),
    ensures
        end == start,
        restored.spec_width() == map.spec_width(),
        restored.spec_height() == map.spec_height(),
        forall|a: int, b: int| #[trigger] map.contains(a, b) ==> restored.tile(a, b) == map.tile(a, b),
{
    let x = start.x as int;
    let y = start.y as int;
    let tile = map.tile(x, y);
    assert(tile.minus_one(resource).plus_one(resource) == tile) by {
        match resource {
            Resource::Food => {},
            Resource::Linemate => {},
            Resource::Deraumere => {},
            Resource::Sibur => {},
            Resource::Mendiane => {},
            Resource::Phiras => {},
            Resource::Thystame => {},
        }
    }
    assert(start.inventory.plus_one(resource).minus_one(resource) == start.inventory) by {
        match resource {
            Resource::Food => {},
            Resource::Linemate => {},
            Resource::Deraumere => {},
            Resource::Sibur => {},
            Resource::Mendiane => {},
            Resource::Phiras => {},
            Resource::Thystame => {},
        }
    }
    assert forall|a: int, b: int| #[trigger] map.contains(a, b) implies restored.tile(a, b) == map.tile(a, b) by {
        if a != x || b != y {
            assert(taken.tile(a, b) == map.tile(a, b));
            assert(restored.tile(a, b) == taken.tile(a, b));
        }
    }
}

/// What the taker is told and the graphical clients learn when an object
/// changes hands: `ok`, the event, the player's inventory, the tile.
pub open spec fn exchange_mail(
    token: ClientId,
    event: Seq<char>,
    player: Player,
    map: GameMap,
) -> Seq<Mail> {
    seq![
        to_client(token, OK_RESPONSE@),
        to_guis(event),
        to_guis(pin_text(player)),
        to_guis(bct_for(map, player.x as nat, player.y as nat)),
    ]
}

impl GameState {
    /// Replies `ok` and tells the graphical clients about an exchange by the
    /// player at `i`.
    fn announce_exchange(&mut self, token: ClientId, i: usize, event: String)
        requires
            old(self).wf(),
            i < old(self).players@.len(),
        ensures
            final(self).wf(),
            final(self).only_sent(
                *old(self),
                exchange_mail(token, event@, old(self).players@[i as int], old(self).map),
            ),
    {
        let ghost start = *self;
        let ghost player = self.players@[i as int];
        self.queue_to_client(token, OK_RESPONSE);
        let ghost s1 = *self;
        self.broadcast_to_guis(event.as_str());
        let ghost s2 = *self;
        let inventory = pin(&self.players[i]);
        self.broadcast_to_guis(inventory.as_str());
        let ghost s3 = *self;
        let tile = bct(&self.map, self.players[i].x, self.players[i].y);
        self.broadcast_to_guis(tile.as_str());
        proof {
            let m1 = seq![to_client(token, OK_RESPONSE@)];
            let m2 = seq![to_guis(event@)];
            let m3 = seq![to_guis(pin_text(player))];
            let m4 = seq![to_guis(bct_for(start.map, player.x as nat, player.y as nat))];
            lemma_delivered_chain(start.clients@, s1.clients@, s2.clients@, m1, m2);
            lemma_delivered_chain(start.clients@, s2.clients@, s3.clients@, m1 + m2, m3);
            lemma_delivered_chain(start.clients@, s3.clients@, self.clients@, m1 + m2 + m3, m4);
            assert(m1 + m2 + m3 + m4 =~= exchange_mail(token, event@, player, start.map));
            lemma_wf_only_sent(start, *self, exchange_mail(token, event@, player, start.map));
        }
    }

    /// `Take object`: player `player_id` takes one `resource` from its tile;
    /// `ok`, then `pgt`, its inventory and the tile to the graphical
    /// clients. `ko` when the player is gone or the tile has none.
    pub fn execute_take(&mut self, token: ClientId, player_id: usize, resource: Resource)
        requires
            old(self).wf(),
        ensures
            final(self).wf(),
            take_done(*old(self), *final(self), token, player_id, resource),
    {
        let i = match self.find_player(player_id) {
            Some(i) => i,
            None => {
                self.queue_to_client(token, KO_RESPONSE);
                proof { lemma_wf_only_sent(*old(self), *self, seq![to_client(token, KO_RESPONSE@)]); }
                return;
            },
        };
        let ghost start = *self;
        let success = take_object(&mut self.players[i], &mut self.map, resource);
        if !success {
            assert(self.players@ =~= start.players@);
            self.queue_to_client(token, KO_RESPONSE);
            proof { lemma_wf_only_sent(start, *self, seq![to_client(token, KO_RESPONSE@)]); }
            return;
        }
        proof { self.lemma_wf_after_exchange(start, i as int); }
        self.announce_exchange(token, i, pgt(player_id, resource));
    }

    /// `Set object`: player `player_id` drops one `resource` on its tile;
    /// `ok`, then `pdr`, its inventory and the tile to the graphical
    /// clients. `ko` when the player is gone or carries none.
    pub fn execute_set(&mut self, token: ClientId, player_id: usize, resource: Resource)
        requires
            old(self).wf(),
        ensures
            final(self).wf(),
            set_done(*old(self), *final(self), token, player_id, resource),
    {
        let i = match self.find_player(player_id) {
            Some(i) => i,
            None => {
                self.queue_to_client(token, KO_RESPONSE);
                proof { lemma_wf_only_sent(*old(self), *self, seq![to_client(token, KO_RESPONSE@)]); }
                return;
            },
        };
        let ghost start = *self;
        let success = set_object(&mut self.players[i], &mut self.map, resource);
        if !success {
            assert(self.players@ =~= start.players@);
            self.queue_to_client(token, KO_RESPONSE);
            proof { lemma_wf_only_sent(start, *self, seq![to_client(token, KO_RESPONSE@)]); }
            return;
        }
        proof { self.lemma_wf_after_exchange(start, i as int); }
        self.announce_exchange(token, i, pdr(player_id, resource));
    }

    /// An exchange between the player at `i` and its tile keeps the state
    /// consistent.
    proof fn lemma_wf_after_exchange(self, before: GameState, i: int)
        requires
            before.wf(),
            0 <= i < before.players@.len(),
            self.map.wf(),
            self.map.spec_width() == before.map.spec_width(),
            self.map.spec_height() == before.map.spec_height(),
            self.players@ == before.players@.update(i, self.players@[i]),
            self.players@[i].id == before.players@[i].id,
            self.players@[i].x == before.players@[i].x,
            self.players@[i].y == before.players@[i].y,
            self.clients@ == before.clients@,
            self.eggs@ == before.eggs@,
            self.frequency == before.frequency,
            self.incantations@ == before.incantations@,
            self.next_client_id == before.next_client_id,
            self.next_player_id == before.next_player_id,
            self.next_egg_id == before.next_egg_id,
            self.next_incantation_id == before.next_incantation_id,
        ensures
            self.wf(),
    {
        assert(self.player_ids() =~= before.player_ids()) by {
            assert forall|k: int| 0 <= k < self.players@.len() implies #[trigger] self.player_ids()[k]
                == before.player_ids()[k] by {
                let _ = before.players@[k];
            }
        }
        assert forall|k: int| 0 <= k < self.players@.len() implies (#[trigger] self.players@[k]).id
            < self.next_player_id && self.map.contains(self.players@[k].x as int, self.players@[k].y as int) by {
            let _ = before.players@[k];
        }
        assert forall|k: int| 0 <= k < self.eggs@.len() implies (#[trigger] self.eggs@[k]).id
            < self.next_egg_id && self.map.contains(self.eggs@[k].x as int, self.eggs@[k].y as int) by {
            let _ = before.eggs@[k];
        }
    }

    /// The end of `Fork`: player `player_id` lays an egg of its team on its
    /// tile; `ok`, and `enw` to the graphical clients. `ko` when the player
    /// is gone.
    pub fn finish_fork(&mut self, token: ClientId, player_id: usize)
        requires
            old(self).wf(),
            old(self).next_egg_id < usize::MAX,
        ensures
            final(self).wf(),
            fork_done(*old(self), *final(self), token, player_id),
    {
        let i = match self.find_player(player_id) {
            Some(i) => i,
            None => {
                self.queue_to_client(token, KO_RESPONSE);
                proof { lemma_wf_only_sent(*old(self), *self, seq![to_client(token, KO_RESPONSE@)]); }
                return;
            },
        };
        let ghost start = *self;
        let egg = Egg::new(
            self.next_egg_id,
            Some(player_id),
            self.players[i].team_name.clone(),
            self.players[i].x,
            self.players[i].y,
        );
        self.next_egg_id = self.next_egg_id + 1;
        let message = enw(&egg);
        self.eggs.push(egg);
        proof {
            assert(self.egg_ids() =~= start.egg_ids().push(start.next_egg_id));
            assert forall|k: int| 0 <= k < self.eggs@.len() implies (#[trigger] self.eggs@[k]).id
                < self.next_egg_id && self.map.contains(self.eggs@[k].x as int, self.eggs@[k].y as int) by {
                if k < start.eggs@.len() {
                    let _ = start.eggs@[k];
                }
            }
            assert forall|a: int, b: int| 0 <= a < b < self.egg_ids().len() implies self.egg_ids()[a]
                < self.egg_ids()[b] by {
                if b == start.eggs@.len() {
                    let _ = start.eggs@[a];
                }
            }
            let _ = start.players@[i as int];
        }
        let ghost mid = *self;
        self.queue_to_client(token, OK_RESPONSE);
        let ghost s1 = *self;
        self.broadcast_to_guis(message.as_str());
        proof {
            lemma_delivered_chain(mid.clients@, s1.clients@, self.clients@,
                seq![to_client(token, OK_RESPONSE@)], seq![to_guis(message@)]);
            assert(seq![to_client(token, OK_RESPONSE@)] + seq![to_guis(message@)]
                =~= seq![to_client(token, OK_RESPONSE@), to_guis(message@)]);
            lemma_wf_only_sent(mid, *self, seq![to_client(token, OK_RESPONSE@), to_guis(message@)]);
        }
    }
}

/// `after` is `before` once player `player_id` tried to take `resource`
/// for client `token`.
pub open spec fn take_done(before: GameState, after: GameState, token: ClientId, player_id: usize, resource: Resource) -> bool {
    &&& match player_position(before.players@, player_id) {
        Some(i) if before.map.tile(before.players@[i].x as int, before.players@[i].y as int).count(resource) > 0 => {
            let player = after.players@[i];
            &&& after.players@ == before.players@.update(i, player)
            &&& took(before.players@[i], player, before.map, after.map, resource)
            &&& after.eggs@ == before.eggs@
            &&& after.teams@ == before.teams@
            &&& after.frequency == before.frequency
            &&& after.incantations@ == before.incantations@
            &&& after.next_player_id == before.next_player_id
            &&& after.next_egg_id == before.next_egg_id
            &&& after.next_client_id == before.next_client_id
            &&& after.next_incantation_id == before.next_incantation_id
            &&& after.next_resource_spawn == before.next_resource_spawn
            &&& after.winner == before.winner
            &&& delivered(before.clients@, after.clients@, exchange_mail(
                token,
                resource_event_text("pgt"@, player_id as nat, resource),
                player,
                after.map,
            ))
        },
        _ => after.only_sent(before, seq![to_client(token, KO_RESPONSE@)]),
    }
}

/// `after` is `before` once player `player_id` tried to set down
/// `resource` for client `token`.
pub open spec fn set_done(before: GameState, after: GameState, token: ClientId, player_id: usize, resource: Resource) -> bool {
    &&& match player_position(before.players@, player_id) {
        Some(i) if before.players@[i].inventory.count(resource) > 0 => {
            let player = after.players@[i];
            &&& after.players@ == before.players@.update(i, player)
            &&& dropped(before.players@[i], player, before.map, after.map, resource)
            &&& after.eggs@ == before.eggs@
            &&& after.teams@ == before.teams@
            &&& after.frequency == before.frequency
            &&& after.incantations@ == before.incantations@
            &&& after.next_player_id == before.next_player_id
            &&& after.next_egg_id == before.next_egg_id
            &&& after.next_client_id == before.next_client_id
            &&& after.next_incantation_id == before.next_incantation_id
            &&& after.next_resource_spawn == before.next_resource_spawn
            &&& after.winner == before.winner
            &&& delivered(before.clients@, after.clients@, exchange_mail(
                token,
                resource_event_text("pdr"@, player_id as nat, resource),
                player,
                after.map,
            ))
        },
        _ => after.only_sent(before, seq![to_client(token, KO_RESPONSE@)]),
    }
}

/// `after` is `before` once player `player_id` laid an egg for client
/// `token`.
pub open spec fn fork_done(before: GameState, after: GameState, token: ClientId, player_id: usize) -> bool {
    &&& match player_position(before.players@, player_id) {
        None => after.only_sent(before, seq![to_client(token, KO_RESPONSE@)]),
        Some(i) => {
            let parent = before.players@[i];
            let egg = after.eggs@.last();
            &&& after.eggs@ == before.eggs@.push(egg)
            &&& egg.id == before.next_egg_id
            &&& egg.parent_id == Some(player_id)
            &&& egg.team_name@ == parent.team_name@
            &&& egg.x == parent.x
            &&& egg.y == parent.y
            &&& after.next_egg_id == before.next_egg_id + 1
            &&& after.players@ == before.players@
            &&& after.teams@ == before.teams@
            &&& after.map == before.map
            &&& after.frequency == before.frequency
            &&& after.incantations@ == before.incantations@
            &&& after.next_player_id == before.next_player_id
            &&& after.next_client_id == before.next_client_id
            &&& after.next_incantation_id == before.next_incantation_id
            &&& after.next_resource_spawn == before.next_resource_spawn
            &&& after.winner == before.winner
            &&& delivered(before.clients@, after.clients@,
                seq![to_client(token, OK_RESPONSE@), to_guis(enw_text(egg))])
        },
    }
}

/// A player that lays an egg opens one more slot in its team, and in no
/// other team.
pub proof fn lemma_fork_opens_a_slot(
    before: GameState,
    after: GameState,
    token: ClientId,
    player_id: usize,
    team: Seq<char>,
)
    requires
        player_position(before.players@, player_id) is Some,
        fork_done(before, after, token, player_id),
    ensures
        team_eggs(after.eggs@, team).len() == team_eggs(before.eggs@, team).len() + if team
            == before.players@[player_position(before.players@, player_id)->0].team_name@ {
            1int
        } else {
            0int
        },
{
    assert(after.eggs@.drop_last() =~= before.eggs@);
}

} // verus!

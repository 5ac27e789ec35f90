//! The AI commands that move a player, and how the graphical clients learn
//! of the moves.
use vstd::prelude::*;

use crate::sound::{broadcast_direction, broadcast_direction_spec};
use crate::client::{Client, ClientId, ClientState};
use crate::constants::{KO_RESPONSE, OK_RESPONSE};
use crate::entities::{forward_delta_spec, turned_left, turned_right, Orientation, Player};
use crate::game::{
    lemma_client_ids_distinct, lemma_mail_bytes_concat, lemma_player_position_is, mail_bytes,
    strictly_increasing,
    delivered, lemma_delivered_chain, lemma_token_of_same_ids, token_of, lemma_delivered_nothing, lemma_wf_only_sent,
    lemma_wf_replaced_player, player_position, to_client, to_guis, GameState, Mail,
};
use crate::gui_messages::{pbc, pbc_text, ppo, ppo_text};
use crate::text::{append, append_decimal, decimal};
use vstd::utf8::encode_utf8;

verus! {

/// `after` is `before` one step forward on a map of `width` by `height`.
pub open spec fn moved_forward(before: Player, after: Player, width: nat, height: nat) -> bool {
    &&& after.x as int == (before.x as int + forward_delta_spec(before.orientation).0) % width as int
    &&& after.y as int == (before.y as int + forward_delta_spec(before.orientation).1) % height as int
    &&& after == (Player { x: after.x, y: after.y, ..before })
}

/// Moves `player` one step the way it faces, wrapping around a map of
/// `width` by `height`.
pub fn move_forward(player: &mut Player, width: usize, height: usize)
    requires
        old(player).x < width,
        old(player).y < height,
    ensures
        moved_forward(*old(player), *final(player), width as nat, height as nat),
        final(player).x < width,
        final(player).y < height,
{
    player.move_forward(width, height);
}

/// Turns `player` a quarter turn clockwise.
pub fn turn_right(player: &mut Player)
    ensures
        *final(player) == (Player { orientation: turned_right(old(player).orientation), ..*old(player) }),
{
    player.turn_right();
}

/// Turns `player` a quarter turn counterclockwise.
pub fn turn_left(player: &mut Player)
    ensures
        *final(player) == (Player { orientation: turned_left(old(player).orientation), ..*old(player) }),
{
    player.turn_left();
}

/// Turning left undoes turning right, and turning right undoes turning
/// left.
pub proof fn lemma_turns_cancel(orientation: Orientation)
    ensures
        turned_left(turned_right(orientation)) == orientation,
        turned_right(turned_left(orientation)) == orientation,
{
}

/// Four quarter turns the same way face a player the way it started.
pub proof fn lemma_four_turns(orientation: Orientation)
    ensures
        turned_right(turned_right(turned_right(turned_right(orientation)))) == orientation,
        turned_left(turned_left(turned_left(turned_left(orientation)))) == orientation,
{
}

/// A step forward, a half turn and a step forward bring a player back to
/// the tile it stood on, wherever it stood on the map.
pub proof fn lemma_step_and_back(start: Player, stepped: Player, back: Player, width: nat, height: nat)
    requires
        start.x < width,
        start.y < height,
        moved_forward(start, stepped, width, height),
        moved_forward(
            Player { orientation: turned_right(turned_right(stepped.orientation)), ..stepped },
            back,
            width,
            height,
        ),
    ensures
        back.x == start.x,
        back.y == start.y,
        back.orientation == turned_right(turned_right(start.orientation)),
{
    let o = start.orientation;
    let w = width as int;
    let h = height as int;
    let x = start.x as int;
    let y = start.y as int;
    match o {
        Orientation::East => {
            assert(((x + 1) % w - 1) % w == x) by (nonlinear_arith)
                requires
                    0 <= x < w,
            {
                if x + 1 < w {
                    assert((x + 1) % w == x + 1);
                } else {
                    assert((x + 1) % w == 0);
                    assert((0 - 1int) % w == w - 1);
                }
            }
            assert(((y + 0) % h + 0) % h == y) by (nonlinear_arith)
                requires
                    0 <= y < h,
            {
                assert((y + 0) % h == y);
            }
        },
        Orientation::West => {
            assert(((x - 1) % w + 1) % w == x) by (nonlinear_arith)
                requires
                    0 <= x < w,
            {
                if x > 0 {
                    assert((x - 1) % w == x - 1);
                } else {
                    assert((0 - 1int) % w == w - 1);
                    assert((w - 1 + 1) % w == 0);
                }
            }
            assert(((y + 0) % h + 0) % h == y) by (nonlinear_arith)
                requires
                    0 <= y < h,
            {
                assert((y + 0) % h == y);
            }
        },
        Orientation::South => {
            assert(((y + 1) % h - 1) % h == y) by (nonlinear_arith)
                requires
                    0 <= y < h,
            {
                if y + 1 < h {
                    assert((y + 1) % h == y + 1);
                } else {
                    assert((y + 1) % h == 0);
                    assert((0 - 1int) % h == h - 1);
                }
            }
            assert(((x + 0) % w + 0) % w == x) by (nonlinear_arith)
                requires
                    0 <= x < w,
            {
                assert((x + 0) % w == x);
            }
        },
        Orientation::North => {
            assert(((y - 1) % h + 1) % h == y) by (nonlinear_arith)
                requires
                    0 <= y < h,
            {
                if y > 0 {
                    assert((y - 1) % h == y - 1);
                } else {
                    assert((0 - 1int) % h == h - 1);
                    assert((h - 1 + 1) % h == 0);
                }
            }
            assert(((x + 0) % w + 0) % w == x) by (nonlinear_arith)
                requires
                    0 <= x < w,
            {
                assert((x + 0) % w == x);
            }
        },
    }
}

/// What the graphical clients are told of a player's position: its `ppo`
/// line, or nothing when it does not exist.
pub open spec fn position_mail(players: Seq<Player>, player_id: usize) -> Seq<Mail> {
    match player_position(players, player_id) {
        Some(i) => seq![to_guis(ppo_text(players[i]))],
        None => Seq::empty(),
    }
}

impl GameState {
    /// Tells the graphical clients where player `player_id` stands and faces.
    pub fn broadcast_player_position(&mut self, player_id: usize)
        ensures
            final(self).only_sent(*old(self), position_mail(old(self).players@, player_id)),
    {
        match self.find_player(player_id) {
            Some(i) => {
                let message = ppo(&self.players[i]);
                self.broadcast_to_guis(message.as_str());
            },
            None => {
                proof {
                    lemma_delivered_nothing(self.clients@);
                }
            },
        }
    }

    /// Replies `ko` to `client_id` because its player is gone.
    fn reject(&mut self, client_id: ClientId)
        requires
            old(self).wf(),
        ensures
            final(self).wf(),
            final(self).only_sent(*old(self), seq![to_client(client_id, KO_RESPONSE@)]),
    {
        self.queue_to_client(client_id, KO_RESPONSE);
        proof {
            lemma_wf_only_sent(*old(self), *self, seq![to_client(client_id, KO_RESPONSE@)]);
        }
    }

    /// Replies `ok` to `client_id` and tells the graphical clients where its
    /// player, at `i`, now stands.
    fn acknowledge_move(&mut self, client_id: ClientId, i: usize)
        requires
            old(self).wf(),
            i < old(self).players@.len(),
        ensures
            final(self).wf(),
            final(self).only_sent(
                *old(self),
                seq![to_client(client_id, OK_RESPONSE@), to_guis(ppo_text(old(self).players@[i as int]))],
            ),
    {
        let ghost start = *self;
        self.queue_to_client(client_id, OK_RESPONSE);
        let ghost middle = *self;
        let message = ppo(&self.players[i]);
        self.broadcast_to_guis(message.as_str());
        proof {
            lemma_delivered_chain(
                start.clients@,
                middle.clients@,
                self.clients@,
                seq![to_client(client_id, OK_RESPONSE@)],
                seq![to_guis(ppo_text(start.players@[i as int]))],
            );
            assert(seq![to_client(client_id, OK_RESPONSE@)] + seq![to_guis(ppo_text(start.players@[i as int]))]
                =~= seq![to_client(client_id, OK_RESPONSE@), to_guis(ppo_text(start.players@[i as int]))]);
            lemma_wf_only_sent(start, *self, seq![to_client(client_id, OK_RESPONSE@), to_guis(ppo_text(start.players@[i as int]))]);
        }
    }

    /// `Forward`: player `player_id` steps forward, wrapping around the map;
    /// `ok`, and its new position to the graphical clients. `ko` when the
    /// player is gone.
    pub fn execute_forward(&mut self, client_id: ClientId, player_id: usize)
        requires
            old(self).wf(),
        ensures
            final(self).wf(),
            forward_done(*old(self), *final(self), client_id, player_id),
    {
        match self.find_player(player_id) {
            Some(i) => {
                let width = self.map.width();
                let height = self.map.height();
                let ghost start = *self;
                move_forward(&mut self.players[i], width, height);
                proof {
                    lemma_delivered_nothing(self.clients@);
                    lemma_wf_replaced_player(start, *self, i as int, self.players@[i as int], Seq::empty());
                }
                self.acknowledge_move(client_id, i);
            },
            None => self.reject(client_id),
        }
    }

    /// `Right`: player `player_id` turns a quarter clockwise; `ok`, and its
    /// new orientation to the graphical clients. `ko` when the player is gone.
    pub fn execute_right(&mut self, client_id: ClientId, player_id: usize)
        requires
            old(self).wf(),
        ensures
            final(self).wf(),
            right_done(*old(self), *final(self), client_id, player_id),
    {
        match self.find_player(player_id) {
            Some(i) => {
                let ghost start = *self;
                turn_right(&mut self.players[i]);
                proof {
                    lemma_delivered_nothing(self.clients@);
                    lemma_wf_replaced_player(start, *self, i as int, self.players@[i as int], Seq::empty());
                }
                self.acknowledge_move(client_id, i);
            },
            None => self.reject(client_id),
        }
    }

    /// `Left`: player `player_id` turns a quarter counterclockwise; `ok`, and
    /// its new orientation to the graphical clients. `ko` when the player is
    /// gone.
    pub fn execute_left(&mut self, client_id: ClientId, player_id: usize)
        requires
            old(self).wf(),
        ensures
            final(self).wf(),
            left_done(*old(self), *final(self), client_id, player_id),
    {
        match self.find_player(player_id) {
            Some(i) => {
                let ghost start = *self;
                turn_left(&mut self.players[i]);
                proof {
                    lemma_delivered_nothing(self.clients@);
                    lemma_wf_replaced_player(start, *self, i as int, self.players@[i as int], Seq::empty());
                }
                self.acknowledge_move(client_id, i);
            },
            None => self.reject(client_id),
        }
    }
}

/// The line a player hears when a message is broadcast from `direction`.
pub open spec fn heard_text(direction: nat, message: Seq<char>) -> Seq<char> {
    "message "@ + decimal(direction) + ", "@ + message + "\n"@
}

/// What the players of `players` other than `sender_id`, in order, hear of
/// a broadcast of `message` sent from `sender`: each one that has a client
/// hears it from its own direction.
pub open spec fn broadcast_mail(
    players: Seq<Player>,
    clients: Seq<(ClientId, Client)>,
    sender_id: usize,
    sender: (int, int),
    width: int,
    height: int,
    message: Seq<char>,
) -> Seq<Mail>
    decreases players.len(),
{
    if players.len() == 0 {
        Seq::empty()
    } else {
        let earlier = broadcast_mail(
            players.drop_last(),
            clients,
            sender_id,
            sender,
            width,
            height,
            message,
        );
        let p = players.last();
        if p.id == sender_id {
            earlier
        } else {
            match token_of(clients, p.id) {
                Some(token) => earlier.push(
                    to_client(
                        token,
                        heard_text(
                            broadcast_direction_spec(
                                (p.x as int, p.y as int),
                                p.orientation,
                                sender,
                                width,
                                height,
                            ),
                            message,
                        ),
                    ),
                ),
                None => earlier,
            }
        }
    }
}

impl GameState {
    /// `Broadcast`: every other player that has a client hears `message`
    /// from the direction it comes from; `ok` to the sender and `pbc` to
    /// the graphical clients. `ko` when the sender is gone.
    pub fn execute_broadcast(&mut self, token: ClientId, sender_id: usize, message: &str)
        requires
            old(self).wf(),
        ensures
            final(self).wf(),
            broadcast_done(*old(self), *final(self), token, sender_id, message@),
    {
        let s = match self.find_player(sender_id) {
            Some(s) => s,
            None => {
                self.reject(token);
                return;
            },
        };
        let sender = (self.players[s].x, self.players[s].y);
        let width = self.map.width();
        let height = self.map.height();
        let ghost start = *self;
        let ghost sender_spec = (sender.0 as int, sender.1 as int);
        let mut i: usize = 0;
        proof {
            lemma_delivered_nothing(self.clients@);
            assert(start.players@.take(0) =~= Seq::<Player>::empty());
        }
        while i < self.players.len()
            invariant
                start.wf(),
                self.wf(),
                i <= self.players@.len(),
                self.same_world(start),
                self.map.spec_width() == width,
                self.map.spec_height() == height,
                sender.0 < width,
                sender.1 < height,
                sender_spec == (sender.0 as int, sender.1 as int),
                delivered(
                    start.clients@,
                    self.clients@,
                    broadcast_mail(
                        start.players@.take(i as int),
                        start.clients@,
                        sender_id,
                        sender_spec,
                        width as int,
                        height as int,
                        message@,
                    ),
                ),
            decreases self.players@.len() - i,
        {
            let ghost before = *self;
            let ghost sent = broadcast_mail(
                start.players@.take(i as int),
                start.clients@,
                sender_id,
                sender_spec,
                width as int,
                height as int,
                message@,
            );
            assert(start.players@.take(i + 1).drop_last() =~= start.players@.take(i as int));
            assert(start.players@.take(i + 1).last() == start.players@[i as int]);
            let recipient_id = self.players[i].id;
            if recipient_id != sender_id {
                let direction = broadcast_direction(
                    (self.players[i].x, self.players[i].y),
                    self.players[i].orientation,
                    sender,
                    width,
                    height,
                );
                proof {
                    lemma_token_of_same_ids(start.clients@, self.clients@, recipient_id);
                }
                if let Some(recipient_token) = self.player_token(recipient_id) {
                    let mut line = String::new();
                    append(&mut line, "message ");
                    append_decimal(&mut line, direction);
                    append(&mut line, ", ");
                    append(&mut line, message);
                    append(&mut line, "\n");
                    self.queue_to_client(recipient_token, line.as_str());
                    proof {
                        lemma_wf_only_sent(before, *self, seq![to_client(recipient_token, line@)]);
                        lemma_delivered_chain(
                            start.clients@,
                            before.clients@,
                            self.clients@,
                            sent,
                            seq![to_client(recipient_token, line@)],
                        );
                        assert(sent + seq![to_client(recipient_token, line@)] =~= sent.push(
                            to_client(recipient_token, line@),
                        ));
                    }
                }
            }
            i = i + 1;
        }
        assert(start.players@.take(start.players@.len() as int) =~= start.players@);
        let ghost middle = *self;
        let ghost heard = broadcast_mail(
            start.players@,
            start.clients@,
            sender_id,
            sender_spec,
            width as int,
            height as int,
            message@,
        );
        self.queue_to_client(token, OK_RESPONSE);
        let ghost after_ok = *self;
        let notice = pbc(sender_id, message);
        self.broadcast_to_guis(notice.as_str());
        proof {
            lemma_delivered_chain(start.clients@, middle.clients@, after_ok.clients@, heard, seq![to_client(token, OK_RESPONSE@)]);
            lemma_delivered_chain(start.clients@, after_ok.clients@, self.clients@,
                heard + seq![to_client(token, OK_RESPONSE@)], seq![to_guis(pbc_text(sender_id as nat, message@))]);
            assert(heard + seq![to_client(token, OK_RESPONSE@)] + seq![to_guis(pbc_text(sender_id as nat, message@))]
                =~= heard + seq![to_client(token, OK_RESPONSE@), to_guis(pbc_text(sender_id as nat, message@))]);
            lemma_wf_only_sent(start, *self, heard + seq![to_client(token, OK_RESPONSE@), to_guis(pbc_text(sender_id as nat, message@))]);
        }
    }
}

/// `after` is `before` once player `player_id` moved forward for client
/// `client_id`: `ko` for an unknown player; otherwise it steps forward,
/// the client gets `ok` and the graphical clients its new position.
pub open spec fn forward_done(before: GameState, after: GameState, client_id: ClientId, player_id: usize) -> bool {
    &&& match player_position(before.players@, player_id) {
        None => after.only_sent(before, seq![to_client(client_id, KO_RESPONSE@)]),
        Some(i) => {
            let moved = after.players@[i];
            &&& after.replaced_player(before, i, moved)
            &&& moved_forward(before.players@[i], moved, before.map.spec_width(), before.map.spec_height())
            &&& delivered(before.clients@, after.clients@,
                seq![to_client(client_id, OK_RESPONSE@), to_guis(ppo_text(moved))])
        },
    }
}

/// `after` is `before` once player `player_id` turned right for client
/// `client_id`.
pub open spec fn right_done(before: GameState, after: GameState, client_id: ClientId, player_id: usize) -> bool {
    &&& match player_position(before.players@, player_id) {
        None => after.only_sent(before, seq![to_client(client_id, KO_RESPONSE@)]),
        Some(i) => {
            let turned = Player { orientation: turned_right(before.players@[i].orientation), ..before.players@[i] };
            &&& after.replaced_player(before, i, turned)
            &&& delivered(before.clients@, after.clients@,
                seq![to_client(client_id, OK_RESPONSE@), to_guis(ppo_text(turned))])
        },
    }
}

/// `after` is `before` once player `player_id` turned left for client
/// `client_id`.
pub open spec fn left_done(before: GameState, after: GameState, client_id: ClientId, player_id: usize) -> bool {
    &&& match player_position(before.players@, player_id) {
        None => after.only_sent(before, seq![to_client(client_id, KO_RESPONSE@)]),
        Some(i) => {
            let turned = Player { orientation: turned_left(before.players@[i].orientation), ..before.players@[i] };
            &&& after.replaced_player(before, i, turned)
            &&& delivered(before.clients@, after.clients@,
                seq![to_client(client_id, OK_RESPONSE@), to_guis(ppo_text(turned))])
        },
    }
}

/// `after` is `before` once player `sender_id` broadcast `message` for
/// client `token`.
pub open spec fn broadcast_done(before: GameState, after: GameState, token: ClientId, sender_id: usize, message: Seq<char>) -> bool {
    &&& match player_position(before.players@, sender_id) {
        None => after.only_sent(before, seq![to_client(token, KO_RESPONSE@)]),
        Some(s) => after.only_sent(
            before,
            broadcast_mail(
                before.players@,
                before.clients@,
                sender_id,
                (before.players@[s].x as int, before.players@[s].y as int),
                before.map.spec_width() as int,
                before.map.spec_height() as int,
                message,
            ) + seq![to_client(token, OK_RESPONSE@), to_guis(pbc_text(sender_id as nat, message))],
        ),
    }
}

/// The client that `token_of` names for a player holds that player.
proof fn lemma_token_of_found(clients: Seq<(ClientId, Client)>, player_id: usize)
    requires
        token_of(clients, player_id) is Some,
    ensures
        exists|k: int|
            0 <= k < clients.len() && (#[trigger] clients[k]).0 == token_of(clients, player_id)->0
                && clients[k].1.player_id == Some(player_id),
    decreases clients.len(),
{
    if clients[0].1.player_id != Some(player_id) {
        let rest = clients.drop_first();
        lemma_token_of_found(rest, player_id);
        let k = choose|k: int|
            0 <= k < rest.len() && (#[trigger] rest[k]).0 == token_of(rest, player_id)->0
                && rest[k].1.player_id == Some(player_id);
        assert(clients[k + 1] == rest[k]);
    }
}

/// A broadcast says nothing to a client that no listener of it owns.
proof fn lemma_broadcast_bytes_none(
    players: Seq<Player>,
    clients: Seq<(ClientId, Client)>,
    sender_id: usize,
    sender: (int, int),
    width: int,
    height: int,
    message: Seq<char>,
    cid: ClientId,
    client: Client,
    pid: usize,
)
    requires
        forall|x: usize| token_of(clients, x) == Some(cid) ==> x == pid,
        forall|k: int| 0 <= k < players.len() ==> (#[trigger] players[k]).id != pid,
    ensures
        mail_bytes(broadcast_mail(players, clients, sender_id, sender, width, height, message), cid, client)
            == Seq::<u8>::empty(),
    decreases players.len(),
{
    if players.len() > 0 {
        let rest = players.drop_last();
        assert forall|k: int| 0 <= k < rest.len() implies (#[trigger] rest[k]).id != pid by {
            assert(rest[k] == players[k]);
        }
        lemma_broadcast_bytes_none(rest, clients, sender_id, sender, width, height, message, cid, client, pid);
        let earlier = broadcast_mail(rest, clients, sender_id, sender, width, height, message);
        let all = broadcast_mail(players, clients, sender_id, sender, width, height, message);
        assert(players[players.len() - 1].id != pid);
        if all.len() > earlier.len() {
            assert(all.drop_last() =~= earlier);
        }
    }
}

/// What a broadcast says to the client of one listener: the listener's
/// line alone.
proof fn lemma_broadcast_bytes_one(
    players: Seq<Player>,
    clients: Seq<(ClientId, Client)>,
    sender_id: usize,
    sender: (int, int),
    width: int,
    height: int,
    message: Seq<char>,
    cid: ClientId,
    client: Client,
    k: int,
)
    requires
        strictly_increasing(players.map_values(|p: Player| p.id)),
        0 <= k < players.len(),
        players[k].id != sender_id,
        token_of(clients, players[k].id) == Some(cid),
        forall|x: usize| token_of(clients, x) == Some(cid) ==> x == players[k].id,
    ensures
        mail_bytes(broadcast_mail(players, clients, sender_id, sender, width, height, message), cid, client)
            == encode_utf8(
            heard_text(
                broadcast_direction_spec(
                    (players[k].x as int, players[k].y as int),
                    players[k].orientation,
                    sender,
                    width,
                    height,
                ),
                message,
            ),
        ),
    decreases players.len(),
{
    let rest = players.drop_last();
    let n = players.len() - 1;
    let ids = players.map_values(|p: Player| p.id);
    let pid = players[k].id;
    let earlier = broadcast_mail(rest, clients, sender_id, sender, width, height, message);
    let all = broadcast_mail(players, clients, sender_id, sender, width, height, message);
    assert(rest.map_values(|p: Player| p.id) =~= ids.drop_last());
    if k == n {
        assert forall|m: int| 0 <= m < rest.len() implies (#[trigger] rest[m]).id != pid by {
            assert(ids[m] == rest[m].id && ids[n] == pid);
        }
        lemma_broadcast_bytes_none(rest, clients, sender_id, sender, width, height, message, cid, client, pid);
        assert(all.drop_last() =~= earlier);
    } else {
        assert(ids[k] == pid && ids[n] == players[n].id);
        assert(players[n].id != pid);
        assert(rest[k] == players[k]);
        lemma_broadcast_bytes_one(rest, clients, sender_id, sender, width, height, message, cid, client, k);
        if all.len() > earlier.len() {
            assert(all.drop_last() =~= earlier);
        }
    }
}

/// Each listener hears a broadcast from its own side: the client of any
/// player other than the sender receives exactly the line
/// `message K, text`, where K is the direction from which the sender's
/// tile lies as seen from the listener's tile and the way the listener
/// faces.
pub proof fn lemma_broadcast_heard_from_its_side(
    before: GameState,
    after: GameState,
    token: ClientId,
    sender_id: usize,
    message: Seq<char>,
    j: int,
    c: int,
)
    requires
        before.wf(),
        broadcast_done(before, after, token, sender_id, message),
        player_position(before.players@, sender_id) is Some,
        0 <= j < before.players@.len(),
        before.players@[j].id != sender_id,
        0 <= c < before.clients@.len(),
        token_of(before.clients@, before.players@[j].id) == Some(before.clients@[c].0),
        before.clients@[c].0 != token,
        before.clients@[c].1.state != ClientState::Gui,
    ensures
        ({
            let s = before.players@[player_position(before.players@, sender_id)->0];
            let q = before.players@[j];
            let k = broadcast_direction_spec(
                (q.x as int, q.y as int),
                q.orientation,
                (s.x as int, s.y as int),
                before.map.spec_width() as int,
                before.map.spec_height() as int,
            );
            after.clients@[c].1.output@ == before.clients@[c].1.output@ + encode_utf8(
                "message "@ + decimal(k) + ", "@ + message + "\n"@,
            )
        }),
{
    let players = before.players@;
    let clients = before.clients@;
    let si = player_position(players, sender_id)->0;
    lemma_player_position_is(players, sender_id, si);
    let s = players[si];
    let q = players[j];
    let cid = clients[c].0;
    let client = clients[c].1;
    let sender = (s.x as int, s.y as int);
    let width = before.map.spec_width() as int;
    let height = before.map.spec_height() as int;
    lemma_token_of_found(clients, q.id);
    let found = choose|m: int|
        0 <= m < clients.len() && (#[trigger] clients[m]).0 == cid && clients[m].1.player_id == Some(q.id);
    if found != c {
        lemma_client_ids_distinct(clients, found, c);
    }
    assert forall|x: usize| token_of(clients, x) == Some(cid) implies x == q.id by {
        lemma_token_of_found(clients, x);
        let m = choose|m: int|
            0 <= m < clients.len() && (#[trigger] clients[m]).0 == cid && clients[m].1.player_id == Some(x);
        if m != c {
            lemma_client_ids_distinct(clients, m, c);
        }
    }
    assert(before.player_ids() == players.map_values(|p: Player| p.id));
    lemma_broadcast_bytes_one(players, clients, sender_id, sender, width, height, message, cid, client, j);
    let heard = broadcast_mail(players, clients, sender_id, sender, width, height, message);
    let tail = seq![to_client(token, OK_RESPONSE@), to_guis(pbc_text(sender_id as nat, message))];
    lemma_mail_bytes_concat(heard, tail, cid, client);
    let first = seq![to_client(token, OK_RESPONSE@)];
    assert(tail.drop_last() =~= first);
    assert(first.drop_last() =~= Seq::<Mail>::empty());
    assert(mail_bytes(Seq::<Mail>::empty(), cid, client) =~= Seq::<u8>::empty());
    assert(!crate::game::addressed(first.last().to, cid, client));
    assert(mail_bytes(first, cid, client) =~= Seq::<u8>::empty());
    assert(mail_bytes(tail, cid, client) =~= Seq::<u8>::empty());
    let _ = after.clients@[c];
}

} // verus!

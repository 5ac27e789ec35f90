//! When things happen: a client's command completes once its time is up,
//! and the next one it queued starts; players eat and the map is refilled
//! on time.
use vstd::prelude::*;

use crate::actions::{broadcast_done, forward_done, left_done, right_done};
use crate::authentication::team_eggs;
use crate::client::{Client, ClientId};
use crate::command::{
    command_line, command_time_units, lemma_parse_command_line, parse_command, ActiveCommand, Command, CommandView,
};
use crate::constants::{KO_RESPONSE, MAX_PENDING_COMMANDS};
use crate::ejection::ejected;
use crate::elevation::finished;
use crate::entities::{Orientation, Player};
use crate::game::{
    client_position, lemma_wf_only_sent, player_position,
    to_client, to_guis, GameState,
};
use crate::gui_messages::{pfk, tagged_id_text};
use crate::incantation::incantation_begun;
use crate::lifecycle::{command_deadline, earliest, food_deadline, food_processed, frozen, later, respawned};
use crate::objects::{fork_done, set_done, take_done};
use crate::text::{append, append_decimal, decimal};
use crate::timing::duration_nanos;
use crate::vision::look_text;
use crate::world::Inventory;

verus! {

/// The answer to `Inventory`: every resource with the units carried.
pub open spec fn inventory_answer(inventory: Inventory) -> Seq<char> {
    "[food "@ + decimal(inventory.food as nat) + ", linemate "@ + decimal(inventory.linemate as nat)
        + ", deraumere "@ + decimal(inventory.deraumere as nat) + ", sibur "@ + decimal(
        inventory.sibur as nat,
    ) + ", mendiane "@ + decimal(inventory.mendiane as nat) + ", phiras "@ + decimal(
        inventory.phiras as nat,
    ) + ", thystame "@ + decimal(inventory.thystame as nat) + "]\n"@
}

/// `after` is `before` once player `player_id`'s `command` completed for
/// client `client_id` at `now`, `incantation_id` being the incantation it
/// started, if any.
pub open spec fn command_completed(
    before: GameState,
    after: GameState,
    client_id: ClientId,
    player_id: usize,
    command: CommandView,
    incantation_id: Option<usize>,
    now: u64,
) -> bool {
    let ko = after.only_sent(before, seq![to_client(client_id, KO_RESPONSE@)]);
    match command {
        CommandView::Forward => forward_done(before, after, client_id, player_id),
        CommandView::Right => right_done(before, after, client_id, player_id),
        CommandView::Left => left_done(before, after, client_id, player_id),
        CommandView::Look => match player_position(before.players@, player_id) {
            Some(i) => after.only_sent(before, seq![to_client(client_id, look_text(before, before.players@[i]))]),
            None => ko,
        },
        CommandView::Inventory => match player_position(before.players@, player_id) {
            Some(i) => after.only_sent(
                before,
                seq![to_client(client_id, inventory_answer(before.players@[i].inventory))],
            ),
            None => ko,
        },
        CommandView::Broadcast(message) => broadcast_done(before, after, client_id, player_id, message),
        CommandView::ConnectNbr => match player_position(before.players@, player_id) {
            Some(i) => after.only_sent(
                before,
                seq![
                    to_client(
                        client_id,
                        decimal(team_eggs(before.eggs@, before.players@[i].team_name@).len()) + "\n"@,
                    ),
                ],
            ),
            None => ko,
        },
        CommandView::Fork => if before.next_egg_id < usize::MAX {
            fork_done(before, after, client_id, player_id)
        } else {
            ko
        },
        CommandView::Eject => ejected(before, after, client_id, player_id),
        CommandView::TakeObject(resource) => take_done(before, after, client_id, player_id, resource),
        CommandView::SetObject(resource) => set_done(before, after, client_id, player_id, resource),
        CommandView::Incantation => match incantation_id {
            Some(id) => finished(before, after, id),
            None => after == before,
        },
        CommandView::Unknown => ko,
    }
}

/// `after` is `before` with the running command of the client at `c`
/// replaced by `active`.
pub open spec fn active_set(before: GameState, after: GameState, c: int, active: Option<ActiveCommand>) -> bool {
    let cl = before.clients@[c].1;
    let a = after.clients@[c].1;
    &&& after.same_world(before)
    &&& after.clients@.len() == before.clients@.len()
    &&& forall|j: int|
        #![trigger after.clients@[j]]
        0 <= j < before.clients@.len() && j != c ==> after.clients@[j] == before.clients@[j]
    &&& after.clients@[c].0 == before.clients@[c].0
    &&& a.input == cl.input
    &&& a.output == cl.output
    &&& a.output_offset == cl.output_offset
    &&& a.state == cl.state
    &&& a.team_name == cl.team_name
    &&& a.player_id == cl.player_id
    &&& a.queue == cl.queue
    &&& a.close_after_flush == cl.close_after_flush
    &&& a.active == active
}

/// The command of client `cl` can complete at `now`: it runs one whose
/// time is up, and its player, if frozen, runs the incantation.
pub open spec fn command_due(players: Seq<Player>, cl: Client, now: u64) -> bool {
    &&& cl.active matches Some(a)
    &&& a.finishes_at <= now
    &&& cl.player_id matches Some(p)
    &&& !(frozen(players, p) && !(a.command@ is Incantation))
}

/// `after` is `before` once the command of client `client_id` that is due
/// at `now`, if any, completed.
pub open spec fn due_command_done(before: GameState, after: GameState, client_id: ClientId, now: u64) -> bool {
    match client_position(before.clients@, client_id) {
        None => after == before,
        Some(c) => {
            let cl = before.clients@[c].1;
            if command_due(before.players@, cl, now) {
                let a = cl.active->0;
                exists|mid: GameState|
                    #![trigger active_set(before, mid, c, None)]
                    active_set(before, mid, c, None) && command_completed(
                        mid,
                        after,
                        client_id,
                        cl.player_id->0,
                        a.command@,
                        a.incantation_id,
                        now,
                    )
            } else {
                after == before
            }
        },
    }
}


/// `after` is `before` with the client at `c` running `command`, due at
/// `finishes_at`, for no incantation.
pub open spec fn command_set(before: GameState, after: GameState, c: int, command: CommandView, finishes_at: u64) -> bool {
    let cl = before.clients@[c].1;
    let a = after.clients@[c].1;
    &&& after.same_world(before)
    &&& after.clients@.len() == before.clients@.len()
    &&& forall|j: int|
        #![trigger after.clients@[j]]
        0 <= j < before.clients@.len() && j != c ==> after.clients@[j] == before.clients@[j]
    &&& after.clients@[c].0 == before.clients@[c].0
    &&& a.input == cl.input
    &&& a.output == cl.output
    &&& a.output_offset == cl.output_offset
    &&& a.state == cl.state
    &&& a.team_name == cl.team_name
    &&& a.player_id == cl.player_id
    &&& a.queue == cl.queue
    &&& a.close_after_flush == cl.close_after_flush
    &&& a.active matches Some(x) && x.command@ == command && x.finishes_at == finishes_at && x.incantation_id is None
}

/// `after` is `before` with the first command queued by the client at
/// `c` taken out of its queue.
pub open spec fn queue_popped(before: GameState, after: GameState, c: int) -> bool {
    let cl = before.clients@[c].1;
    let a = after.clients@[c].1;
    &&& after.same_world(before)
    &&& after.clients@.len() == before.clients@.len()
    &&& forall|j: int|
        #![trigger after.clients@[j]]
        0 <= j < before.clients@.len() && j != c ==> after.clients@[j] == before.clients@[j]
    &&& after.clients@[c].0 == before.clients@[c].0
    &&& a.input == cl.input
    &&& a.output == cl.output
    &&& a.output_offset == cl.output_offset
    &&& a.state == cl.state
    &&& a.team_name == cl.team_name
    &&& a.player_id == cl.player_id
    &&& a.queue@ == cl.queue@.drop_first()
    &&& a.active == cl.active
    &&& a.close_after_flush == cl.close_after_flush
}

/// `after` is `before` once player `player_id`'s `command` started at
/// `now` for the client at `c`, called `client_id`: an incantation starts
/// at once, or is refused; a fork shows `pfk` to the graphical clients;
/// every command but an incantation then runs for its time.
pub open spec fn command_started(
    before: GameState,
    after: GameState,
    c: int,
    client_id: ClientId,
    player_id: usize,
    command: CommandView,
    now: u64,
) -> bool {
    let finishes_at = later(now, duration_nanos(command_time_units(command), before.frequency as nat));
    match command {
        CommandView::Incantation => if before.next_incantation_id < usize::MAX {
            exists|started: bool|
                #![trigger incantation_begun(before, after, client_id, player_id, now, started)]
                incantation_begun(before, after, client_id, player_id, now, started)
        } else {
            after.only_sent(before, seq![to_client(client_id, KO_RESPONSE@)])
        },
        CommandView::Fork => exists|mid: GameState|
            #![trigger command_set(before, mid, c, command, finishes_at)]
            command_set(before, mid, c, command, finishes_at) && after.only_sent(
                mid,
                seq![to_guis(tagged_id_text("pfk"@, player_id as nat))],
            ),
        _ => command_set(before, after, c, command, finishes_at),
    }
}

/// `after` is `before` once client `client_id`'s next queued command
/// started at `now`, when it runs none and its player is not frozen.
pub open spec fn next_command_started(before: GameState, after: GameState, client_id: ClientId, now: u64) -> bool {
    match client_position(before.clients@, client_id) {
        None => after == before,
        Some(c) => {
            let cl = before.clients@[c].1;
            if cl.active is None && cl.queue@.len() > 0 && cl.player_id is Some && !frozen(
                before.players@,
                cl.player_id->0,
            ) {
                exists|mid: GameState|
                    #![trigger queue_popped(before, mid, c)]
                    queue_popped(before, mid, c) && command_started(
                        mid,
                        after,
                        c,
                        client_id,
                        cl.player_id->0,
                        cl.queue@[0]@,
                        now,
                    )
            } else {
                after == before
            }
        },
    }
}

/// `after` is `before` once client `client_id` was given its turn at
/// `now`: its due command completed, then its next one started.
pub open spec fn client_ran(before: GameState, after: GameState, client_id: ClientId, now: u64) -> bool {
    exists|mid: GameState|
        #![trigger due_command_done(before, mid, client_id, now)]
        due_command_done(before, mid, client_id, now) && next_command_started(mid, after, client_id, now)
}

/// `states` are the states of the game while the clients `ids`, in
/// order, are given their turn at `now`.
pub open spec fn turns_trace(states: Seq<GameState>, ids: Seq<usize>, now: u64) -> bool {
    &&& states.len() == ids.len() + 1
    &&& forall|k: int|
        0 <= k < ids.len() ==> #[trigger] client_ran(states[k], states[k + 1], ClientId(ids[k]), now)
}

/// `after` is `before` once the clients `ids`, in order, were given their
/// turn at `now`.
pub open spec fn clients_ran(before: GameState, after: GameState, ids: Seq<usize>, now: u64) -> bool {
    exists|states: Seq<GameState>|
        #![trigger turns_trace(states, ids, now)]
        turns_trace(states, ids, now) && states[0] == before && states.last() == after
}

/// `after` is `before` once the timers ran out at `now`: the players ate
/// what was due, the map was refilled as often as due, then every client
/// connected had its turn, in order.
pub open spec fn timers_processed(before: GameState, after: GameState, now: u64) -> bool {
    exists|fed: GameState, refilled: GameState, eaten: usize, refills: usize|
        #![trigger food_processed(before, fed, now, eaten), respawned(fed, refilled, now, refills)]
        food_processed(before, fed, now, eaten) && respawned(fed, refilled, now, refills) && clients_ran(
            refilled,
            after,
            refilled.client_ids(),
            now,
        )
}

/// The time from `now` until `deadline`, zero once it has passed.
pub open spec fn time_until(deadline: Option<u64>, now: u64) -> Option<u64> {
    match deadline {
        Some(d) => Some(if d > now {
            (d - now) as u64
        } else {
            0
        }),
        None => None,
    }
}

/// A command started at `start` is not completed before its time is up:
/// until `start` plus the command's duration, it is not due.
pub proof fn lemma_command_waits_its_time(
    before: GameState,
    after: GameState,
    c: int,
    command: CommandView,
    start: u64,
    now: u64,
)
    requires
        0 <= c < before.clients@.len(),
        command_set(
            before,
            after,
            c,
            command,
            later(start, duration_nanos(command_time_units(command), before.frequency as nat)),
        ),
        now < later(start, duration_nanos(command_time_units(command), before.frequency as nat)),
    ensures
        !command_due(after.players@, after.clients@[c].1, now),
{
}

/// Changing only one client's running command or queue, within bounds,
/// keeps the state consistent.
proof fn lemma_wf_client_changed(before: GameState, after: GameState, c: int)
    requires
        before.wf(),
        0 <= c < before.clients@.len(),
        after.same_world(before),
        after.clients@.len() == before.clients@.len(),
        forall|j: int| 0 <= j < before.clients@.len() && j != c ==> #[trigger] after.clients@[j] == before.clients@[j],
        after.clients@[c].0 == before.clients@[c].0,
        after.clients@[c].1.queue@.len() <= MAX_PENDING_COMMANDS,
    ensures
        after.wf(),
{
    assert(after.client_ids() =~= before.client_ids()) by {
        assert forall|j: int| 0 <= j < after.clients@.len() implies #[trigger] after.client_ids()[j]
            == before.client_ids()[j] by {
            if j != c {
                assert(after.clients@[j] == before.clients@[j]);
            }
        }
    }
    assert forall|j: int| 0 <= j < after.clients@.len() implies (#[trigger] after.clients@[j]).0.0
        < after.next_client_id && after.clients@[j].1.queue@.len() <= MAX_PENDING_COMMANDS by {
        if j != c {
            assert(after.clients@[j] == before.clients@[j]);
        } else {
            let _ = before.clients@[j];
        }
    }
}

impl GameState {
    /// The answer to `Inventory` for `inventory`.
    fn inventory_text(inventory: &Inventory) -> (text: String)
        ensures
            text@ == inventory_answer(*inventory),
    {
        let mut text = String::new();
        append(&mut text, "[food ");
        append_decimal(&mut text, inventory.food);
        append(&mut text, ", linemate ");
        append_decimal(&mut text, inventory.linemate);
        append(&mut text, ", deraumere ");
        append_decimal(&mut text, inventory.deraumere);
        append(&mut text, ", sibur ");
        append_decimal(&mut text, inventory.sibur);
        append(&mut text, ", mendiane ");
        append_decimal(&mut text, inventory.mendiane);
        append(&mut text, ", phiras ");
        append_decimal(&mut text, inventory.phiras);
        append(&mut text, ", thystame ");
        append_decimal(&mut text, inventory.thystame);
        append(&mut text, "]\n");
        text
    }

    /// Player `player_id`'s `command` completes for client `client_id` at
    /// `now`.
    pub fn complete_command(
        &mut self,
        client_id: ClientId,
        player_id: usize,
        command: Command,
        incantation_id: Option<usize>,
        now: u64,
    )
        requires
            old(self).wf(),
        ensures
            final(self).wf(),
            command_completed(*old(self), *final(self), client_id, player_id, command@, incantation_id, now),
    {
        let ghost start = *self;
        match command {
            Command::Forward => self.execute_forward(client_id, player_id),
            Command::Right => self.execute_right(client_id, player_id),
            Command::Left => self.execute_left(client_id, player_id),
            Command::Look => {
                match self.look_response(player_id) {
                    Some(text) => {
                        self.queue_to_client(client_id, text.as_str());
                        proof {
                            lemma_wf_only_sent(start, *self, seq![to_client(client_id, text@)]);
                        }
                    },
                    None => {
                        self.queue_to_client(client_id, KO_RESPONSE);
                        proof {
                            lemma_wf_only_sent(start, *self, seq![to_client(client_id, KO_RESPONSE@)]);
                        }
                    },
                }
            },
            Command::Inventory => {
                match self.find_player(player_id) {
                    Some(i) => {
                        let text = GameState::inventory_text(&self.players[i].inventory);
                        self.queue_to_client(client_id, text.as_str());
                        proof {
                            lemma_wf_only_sent(start, *self, seq![to_client(client_id, text@)]);
                        }
                    },
                    None => {
                        self.queue_to_client(client_id, KO_RESPONSE);
                        proof {
                            lemma_wf_only_sent(start, *self, seq![to_client(client_id, KO_RESPONSE@)]);
                        }
                    },
                }
            },
            Command::Broadcast(message) => self.execute_broadcast(client_id, player_id, message.as_str()),
            Command::ConnectNbr => {
                match self.find_player(player_id) {
                    Some(i) => {
                        let slots = self.available_egg_count(self.players[i].team_name.as_str());
                        let mut text = String::new();
                        append_decimal(&mut text, slots);
                        append(&mut text, "\n");
                        self.queue_to_client(client_id, text.as_str());
                        proof {
                            lemma_wf_only_sent(start, *self, seq![to_client(client_id, text@)]);
                        }
                    },
                    None => {
                        self.queue_to_client(client_id, KO_RESPONSE);
                        proof {
                            lemma_wf_only_sent(start, *self, seq![to_client(client_id, KO_RESPONSE@)]);
                        }
                    },
                }
            },
            Command::Fork => {
                if self.next_egg_id < usize::MAX {
                    self.finish_fork(client_id, player_id);
                } else {
                    self.queue_to_client(client_id, KO_RESPONSE);
                    proof {
                        lemma_wf_only_sent(start, *self, seq![to_client(client_id, KO_RESPONSE@)]);
                    }
                }
            },
            Command::Eject => self.execute_eject(client_id, player_id),
            Command::TakeObject(resource) => self.execute_take(client_id, player_id, resource),
            Command::SetObject(resource) => self.execute_set(client_id, player_id, resource),
            Command::Incantation => {
                match incantation_id {
                    Some(id) => self.finish_incantation(id),
                    None => {},
                }
            },
            Command::Unknown => {
                self.queue_to_client(client_id, KO_RESPONSE);
                proof {
                    lemma_wf_only_sent(start, *self, seq![to_client(client_id, KO_RESPONSE@)]);
                }
            },
        }
    }

    /// Completes the command of client `client_id` when it is due at `now`
    /// (see `command_due`).
    pub fn run_due_command(&mut self, client_id: ClientId, now: u64)
        requires
            old(self).wf(),
        ensures
            final(self).wf(),
            due_command_done(*old(self), *final(self), client_id, now),
    {
        let c = match self.find_client(client_id) {
            Some(c) => c,
            None => return ,
        };
        let player_id = match self.clients[c].1.player_id {
            Some(p) => p,
            None => return ,
        };
        let due = match &self.clients[c].1.active {
            Some(active) => active.finishes_at <= now && !(self.is_player_frozen(player_id)
                && !active.command.is_incantation()),
            None => false,
        };
        if !due {
            return ;
        }
        let ghost start = *self;
        let active = self.clients[c].1.take_active();
        proof {
            lemma_wf_client_changed(start, *self, c as int);
            assert(active_set(start, *self, c as int, None));
        }
        match active {
            Some(a) => self.complete_command(client_id, player_id, a.command, a.incantation_id, now),
            None => {},
        }
    }

    /// Starts the next command queued by client `client_id` at `now`, when
    /// it runs none and its player is not frozen (see `command_started`).
    pub fn start_next_command(&mut self, client_id: ClientId, now: u64)
        requires
            old(self).wf(),
        ensures
            final(self).wf(),
            next_command_started(*old(self), *final(self), client_id, now),
    {
        let c = match self.find_client(client_id) {
            Some(c) => c,
            None => return ,
        };
        let player_id = match self.clients[c].1.player_id {
            Some(p) => p,
            None => return ,
        };
        if self.clients[c].1.active.is_some() || self.clients[c].1.queue.len() == 0 || self.is_player_frozen(
            player_id,
        ) {
            return ;
        }
        let ghost start = *self;
        let command = self.clients[c].1.pop_command();
        proof {
            lemma_wf_client_changed(start, *self, c as int);
            assert(queue_popped(start, *self, c as int));
        }
        let ghost mid = *self;
        if command.is_incantation() {
            if self.next_incantation_id < usize::MAX {
                let started = self.begin_incantation(client_id, player_id, now);
                assert(incantation_begun(mid, *self, client_id, player_id, now, started));
            } else {
                self.queue_to_client(client_id, KO_RESPONSE);
                proof {
                    lemma_wf_only_sent(mid, *self, seq![to_client(client_id, KO_RESPONSE@)]);
                }
            }
        } else {
            let is_fork = match command {
                Command::Fork => true,
                _ => false,
            };
            let units = command.time_units();
            proof {
                crate::game::lemma_duration_bound(units as nat, self.frequency as nat);
            }
            let finishes_at = now.saturating_add(self.duration(units));
            self.clients[c].1.start_command(ActiveCommand::new(command, finishes_at));
            proof {
                lemma_wf_client_changed(mid, *self, c as int);
                assert(command_set(mid, *self, c as int, command@, finishes_at));
            }
            if is_fork {
                let ghost set = *self;
                let text = pfk(player_id);
                self.broadcast_to_guis(text.as_str());
                proof {
                    lemma_wf_only_sent(set, *self, seq![to_guis(text@)]);
                    assert(command_set(mid, set, c as int, command@, finishes_at));
                }
            }
            assert(finishes_at == later(now, duration_nanos(command_time_units(command@), mid.frequency as nat)));
            assert(command_started(mid, *self, c as int, client_id, player_id, command@, now));
        }
        assert(command_started(mid, *self, c as int, client_id, player_id, command@, now));
        assert(queue_popped(start, mid, c as int));
    }

    /// Gives client `client_id` its turn at `now`: its due command
    /// completes, then its next one starts.
    pub fn run_client(&mut self, client_id: ClientId, now: u64)
        requires
            old(self).wf(),
        ensures
            final(self).wf(),
            client_ran(*old(self), *final(self), client_id, now),
    {
        self.run_due_command(client_id, now);
        let ghost mid = *self;
        self.start_next_command(client_id, now);
        assert(due_command_done(*old(self), mid, client_id, now));
    }

    /// The identifiers of the clients, in order.
    fn client_id_list(&self) -> (ids: Vec<usize>)
        ensures
            ids@ == self.client_ids(),
    {
        let mut ids: Vec<usize> = Vec::new();
        let mut k: usize = 0;
        while k < self.clients.len()
            invariant
                k <= self.clients@.len(),
                ids@ == self.client_ids().take(k as int),
            decreases self.clients@.len() - k,
        {
            ids.push(self.clients[k].0.0);
            proof {
                assert(ids@ =~= self.client_ids().take(k + 1));
            }
            k = k + 1;
        }
        assert(self.client_ids().take(k as int) =~= self.client_ids());
        ids
    }

    /// Everything due by `now` happens (see `timers_processed`).
    pub fn process_timers(&mut self, now: u64)
        requires
            old(self).wf(),
        ensures
            final(self).wf(),
            timers_processed(*old(self), *final(self), now),
    {
        let eaten = self.process_food(now);
        let ghost fed = *self;
        let refills = self.process_resource_respawn(now);
        let ghost refilled = *self;
        let ids = self.client_id_list();
        let ghost mut states: Seq<GameState> = seq![refilled];
        let mut k: usize = 0;
        while k < ids.len()
            invariant
                k <= ids@.len(),
                ids@ == refilled.client_ids(),
                self.wf(),
                states.len() == k + 1,
                states[0] == refilled,
                states.last() == *self,
                forall|j: int|
                    0 <= j < k ==> #[trigger] client_ran(states[j], states[j + 1], ClientId(ids@[j]), now),
            decreases ids@.len() - k,
        {
            self.run_client(ClientId(ids[k]), now);
            proof {
                states = states.push(*self);
            }
            k = k + 1;
        }
        assert(turns_trace(states, refilled.client_ids(), now));
        assert(food_processed(*old(self), fed, now, eaten) && respawned(fed, refilled, now, refills));
    }

    /// How long the server may wait at `now` before something is due: a
    /// command, a meal or the refill of the map.
    pub fn next_timeout(&self, now: u64) -> (timeout: Option<u64>)
        ensures
            timeout == time_until(
                earliest(
                    earliest(command_deadline(self.clients@, self.players@), food_deadline(self.players@)),
                    Some(self.next_resource_spawn),
                ),
                now,
            ),
    {
        match self.next_deadline() {
            Some(deadline) => Some(if deadline > now {
                deadline - now
            } else {
                0
            }),
            None => None,
        }
    }
}

/// Carrying out the line `Left` turns the player a quarter turn
/// counterclockwise (north to west, west to south, south to east, east to
/// north), and the line `Right` a quarter turn clockwise; the player keeps
/// its tile and all else, and the other players stay as they were.
pub proof fn lemma_turn_lines(
    before: GameState,
    after: GameState,
    client_id: ClientId,
    player_id: usize,
    incantation_id: Option<usize>,
    now: u64,
    line: Seq<char>,
    i: int,
)
    requires
        line == "Left"@ || line == "Right"@,
        command_completed(before, after, client_id, player_id, parse_command(line), incantation_id, now),
        player_position(before.players@, player_id) == Some(i),
    ensures
        ({
            let p = before.players@[i];
            let facing = if line == "Left"@ {
                match p.orientation {
                    Orientation::North => Orientation::West,
                    Orientation::West => Orientation::South,
                    Orientation::South => Orientation::East,
                    Orientation::East => Orientation::North,
                }
            } else {
                match p.orientation {
                    Orientation::North => Orientation::East,
                    Orientation::East => Orientation::South,
                    Orientation::South => Orientation::West,
                    Orientation::West => Orientation::North,
                }
            };
            after.players@ == before.players@.update(i, Player { orientation: facing, ..p })
        }),
{
    reveal_strlit("Left");
    reveal_strlit("Right");
    if line == "Left"@ {
        lemma_parse_command_line(CommandView::Left);
        assert(command_line(CommandView::Left) == line);
    } else {
        lemma_parse_command_line(CommandView::Right);
        assert(command_line(CommandView::Right) == line);
    }
}

} // verus!

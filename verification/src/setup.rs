//! How a game starts: the map with its resources, the teams, and the eggs
//! from which the first players hatch.
use vstd::prelude::*;

use crate::authentication::random_below;
use crate::config::{texts, Config};
use crate::constants::{
    FIRST_CLIENT_ID, FIRST_EGG_ID, FIRST_INCANTATION_ID, FIRST_PLAYER_ID, RESOURCE_RESPAWN_TIME_UNITS,
};
use crate::entities::{Egg, Team};
use crate::game::GameState;
use crate::lifecycle::later;
use crate::resources::{spawn_initial_resources, target_units};
use crate::timing::{duration_for, duration_nanos};
use crate::world::{GameMap, Resource};

verus! {

/// The names of `teams`, in order.
pub open spec fn team_names(teams: Seq<Team>) -> Seq<Seq<char>> {
    teams.map_values(|t: Team| t.name@)
}

/// `state` is a game just started from `config` at `now`: a map of the
/// configured size holding the units of each resource its size calls
/// for, the configured teams in reverse order, for each team in turn
/// `clients_nb` eggs laid by nobody, numbered from one, none of it played
/// yet, and the first refill of the map one refill period after `now`.
pub open spec fn started(state: GameState, config: Config, now: u64) -> bool {
    let eggs = config.clients_nb as nat;
    &&& state.map.spec_width() == config.width
    &&& state.map.spec_height() == config.height
    &&& forall|r: Resource| #[trigger] state.map.total(r) == target_units((config.width * config.height) as nat, r)
    &&& team_names(state.teams@) == texts(config.teams@).reverse()
    &&& state.eggs@.len() == state.teams@.len() * eggs
    &&& forall|k: int|
        0 <= k < state.eggs@.len() ==> {
            &&& (#[trigger] state.eggs@[k]).id == k + 1
            &&& state.eggs@[k].parent_id is None
            &&& state.eggs@[k].team_name@ == state.teams@[k / (eggs as int)].name@
        }
    &&& state.clients@.len() == 0
    &&& state.players@.len() == 0
    &&& state.incantations@.len() == 0
    &&& state.frequency == config.freq
    &&& state.next_client_id == FIRST_CLIENT_ID
    &&& state.next_player_id == FIRST_PLAYER_ID
    &&& state.next_egg_id == state.eggs@.len() + 1
    &&& state.next_incantation_id == FIRST_INCANTATION_ID
    &&& state.next_resource_spawn == later(
        now,
        duration_nanos(RESOURCE_RESPAWN_TIME_UNITS as nat, config.freq as nat),
    )
    &&& state.winner is None
}

/// The egg at position `t * eggs + j` belongs to team `t`.
proof fn lemma_egg_team(t: int, j: int, eggs: int)
    requires
        0 <= t,
        0 <= j < eggs,
    ensures
        (t * eggs + j) / eggs == t,
{
    vstd::arithmetic::div_mod::lemma_fundamental_div_mod_converse(t * eggs + j, eggs, t, j);
}

impl GameState {
    /// A game started from `config` at `now`, its resources and eggs
    /// placed at random.
    pub fn new(config: &Config, now: u64) -> (state: GameState)
        requires
            config.width >= 1,
            config.height >= 1,
            config.width * config.height <= usize::MAX,
            config.width <= isize::MAX,
            config.height <= isize::MAX,
            config.freq >= 1,
            duration_nanos(RESOURCE_RESPAWN_TIME_UNITS as nat, config.freq as nat) > 0,
            config.teams@.len() * config.clients_nb < usize::MAX,
        ensures
            state.wf(),
            started(state, *config, now),
    {
        let mut map = GameMap::new(config.width, config.height);
        spawn_initial_resources(&mut map);
        let mut teams: Vec<Team> = Vec::new();
        let count = config.teams.len();
        let mut k: usize = 0;
        while k < count
            invariant
                count == config.teams@.len(),
                k <= count,
                team_names(teams@) == texts(config.teams@).reverse().take(k as int),
            decreases count - k,
        {
            let ghost before = teams@;
            teams.push(Team::new(config.teams[count - 1 - k].clone()));
            proof {
                let names = texts(config.teams@);
                assert(teams@.drop_last() == before);
                assert(teams@.last().name@ == config.teams@[count - 1 - k]@);
                assert(names.reverse()[k as int] == names[count - 1 - k]);
                assert(team_names(teams@) =~= team_names(before).push(names[count - 1 - k]));
                assert(names.reverse().take(k + 1) =~= names.reverse().take(k as int).push(names.reverse()[k as int]));
                assert(team_names(teams@) =~= names.reverse().take(k + 1));
            }
            k = k + 1;
        }
        assert(texts(config.teams@).reverse().take(count as int) =~= texts(config.teams@).reverse());
        let per_team = config.clients_nb;
        let mut eggs: Vec<Egg> = Vec::new();
        let mut next_egg_id = FIRST_EGG_ID;
        let mut t: usize = 0;
        proof {
            assert(teams@.len() == count);
            assert(0 * per_team == 0) by (nonlinear_arith);
        }
        while t < teams.len()
            invariant
                map.wf(),
                map.spec_width() == config.width,
                map.spec_height() == config.height,
                teams@.len() == count,
                count * per_team < usize::MAX,
                t <= count,
                eggs@.len() == t * per_team,
                next_egg_id == eggs@.len() + 1,
                forall|m: int|
                    0 <= m < eggs@.len() ==> {
                        &&& (#[trigger] eggs@[m]).id == m + 1
                        &&& eggs@[m].parent_id is None
                        &&& eggs@[m].team_name@ == teams@[m / (per_team as int)].name@
                        &&& map.contains(eggs@[m].x as int, eggs@[m].y as int)
                    },
            decreases count - t,
        {
            proof {
                assert(t * per_team + per_team <= count * per_team) by (nonlinear_arith)
                    requires
                        t < count,
                ;
            }
            let mut j: usize = 0;
            while j < per_team
                invariant
                    map.wf(),
                    map.spec_width() == config.width,
                    map.spec_height() == config.height,
                    teams@.len() == count,
                    count * per_team < usize::MAX,
                    t < count,
                    t * per_team + per_team <= count * per_team,
                    j <= per_team,
                    eggs@.len() == t * per_team + j,
                    next_egg_id == eggs@.len() + 1,
                    forall|m: int|
                        0 <= m < eggs@.len() ==> {
                            &&& (#[trigger] eggs@[m]).id == m + 1
                            &&& eggs@[m].parent_id is None
                            &&& eggs@[m].team_name@ == teams@[m / (per_team as int)].name@
                            &&& map.contains(eggs@[m].x as int, eggs@[m].y as int)
                        },
                decreases per_team - j,
            {
                let x = random_below(map.width());
                let y = random_below(map.height());
                let egg = Egg::new(next_egg_id, None, teams[t].name.clone(), x, y);
                let ghost before = eggs@;
                eggs.push(egg);
                proof {
                    lemma_egg_team(t as int, j as int, per_team as int);
                    assert forall|m: int| 0 <= m < eggs@.len() implies {
                        &&& (#[trigger] eggs@[m]).id == m + 1
                        &&& eggs@[m].parent_id is None
                        &&& eggs@[m].team_name@ == teams@[m / (per_team as int)].name@
                        &&& map.contains(eggs@[m].x as int, eggs@[m].y as int)
                    } by {
                        if m < before.len() {
                            assert(eggs@[m] == before[m]);
                        }
                    }
                }
                next_egg_id = next_egg_id + 1;
                j = j + 1;
            }
            proof {
                assert(t * per_team + per_team == (t + 1) * per_team) by (nonlinear_arith);
            }
            t = t + 1;
        }
        proof {
            assert(duration_nanos(RESOURCE_RESPAWN_TIME_UNITS as nat, config.freq as nat) <= 20000000000) by (nonlinear_arith)
                requires
                    config.freq >= 1,
            {
                assert((20int * 1000000000int) / (config.freq as int) <= 20int * 1000000000int) by (nonlinear_arith)
                    requires
                        config.freq >= 1,
                ;
            }
        }
        let period = duration_for(RESOURCE_RESPAWN_TIME_UNITS, config.freq);
        let state = GameState {
            clients: Vec::new(),
            players: Vec::new(),
            eggs,
            teams,
            map,
            frequency: config.freq,
            next_client_id: FIRST_CLIENT_ID,
            next_player_id: FIRST_PLAYER_ID,
            next_egg_id,
            next_incantation_id: FIRST_INCANTATION_ID,
            next_resource_spawn: now.saturating_add(period),
            incantations: Vec::new(),
            winner: None,
        };
        proof {
            assert(state.egg_ids() =~= state.eggs@.map_values(|e: Egg| e.id));
            assert forall|a: int, b: int| 0 <= a < b < state.egg_ids().len() implies state.egg_ids()[a]
                < state.egg_ids()[b] by {
                let _ = state.eggs@[a];
                let _ = state.eggs@[b];
            }
            assert(state.client_ids() =~= Seq::<usize>::empty());
            assert(state.player_ids() =~= Seq::<usize>::empty());
            assert(state.incantation_ids() =~= Seq::<usize>::empty());
        }
        state
    }
}

} // verus!

//! `Look`: what a player sees, row by row in front of it, its vision
//! widening with its level.
use vstd::prelude::*;

use crate::entities::{forward_delta_spec, right_delta_spec, Orientation, Player};
use crate::game::{player_position, GameState};
use crate::text::append;
use crate::world::{resource_at, resource_name, Inventory, Resource};

verus! {

/// `word`, `n` times.
pub open spec fn repeated(word: Seq<char>, n: nat) -> Seq<Seq<char>> {
    Seq::new(n, |k: int| word)
}

/// Number of players standing on (`x`, `y`).
pub open spec fn players_on(players: Seq<Player>, x: usize, y: usize) -> nat
    decreases players.len(),
{
    if players.len() == 0 {
        0
    } else {
        players_on(players.drop_last(), x, y) + if players.last().x == x && players.last().y == y {
            1nat
        } else {
            0nat
        }
    }
}

/// The objects seen on a tile: `player` for each player there, then each
/// resource's name for each unit of it, in protocol order.
pub open spec fn tile_words(players: Seq<Player>, tile: Inventory, x: usize, y: usize) -> Seq<Seq<char>> {
    repeated("player"@, players_on(players, x, y)) + repeated(resource_name(resource_at(0)), tile.food as nat)
        + repeated(resource_name(resource_at(1)), tile.linemate as nat) + repeated(
        resource_name(resource_at(2)),
        tile.deraumere as nat,
    ) + repeated(resource_name(resource_at(3)), tile.sibur as nat) + repeated(
        resource_name(resource_at(4)),
        tile.mendiane as nat,
    ) + repeated(resource_name(resource_at(5)), tile.phiras as nat) + repeated(
        resource_name(resource_at(6)),
        tile.thystame as nat,
    )
}

/// `words` separated by single spaces.
pub open spec fn spaced(words: Seq<Seq<char>>) -> Seq<char>
    decreases words.len(),
{
    if words.len() == 0 {
        Seq::empty()
    } else if words.len() == 1 {
        words[0]
    } else {
        spaced(words.drop_last()) + " "@ + words.last()
    }
}

/// What a player sees on tile (`x`, `y`).
pub open spec fn tile_content(state: GameState, x: usize, y: usize) -> Seq<char> {
    if state.map.contains(x as int, y as int) {
        spaced(tile_words(state.players@, state.map.tile(x as int, y as int), x, y))
    } else {
        spaced(repeated("player"@, players_on(state.players@, x, y)))
    }
}

/// The tile that player `p` sees at `distance` rows ahead and `lateral`
/// tiles to the right, on a map of `width` by `height`.
pub open spec fn seen_tile(p: Player, distance: int, lateral: int, width: nat, height: nat) -> (usize, usize) {
    let forward = forward_delta_spec(p.orientation);
    let right = right_delta_spec(p.orientation);
    (
        ((p.x + forward.0 * distance + right.0 * lateral) % (width as int)) as usize,
        ((p.y + forward.1 * distance + right.1 * lateral) % (height as int)) as usize,
    )
}

/// The entry of one tile in the answer to `Look`: a comma before every
/// tile but the first, then a space and the content unless it is empty.
pub open spec fn tile_entry(state: GameState, p: Player, distance: int, lateral: int) -> Seq<char> {
    let (x, y) = seen_tile(p, distance, lateral, state.map.spec_width(), state.map.spec_height());
    let content = tile_content(state, x, y);
    (if distance == 0 {
        Seq::empty()
    } else {
        ","@
    }) + if content.len() == 0 {
        Seq::empty()
    } else {
        " "@ + content
    }
}

/// The first `count` tiles of row `distance`, from the leftmost.
pub open spec fn row_text(state: GameState, p: Player, distance: int, count: nat) -> Seq<char>
    decreases count,
{
    if count == 0 {
        Seq::empty()
    } else {
        row_text(state, p, distance, (count - 1) as nat) + tile_entry(state, p, distance, -distance + count - 1)
    }
}

/// The first `rows` rows, nearest first.
pub open spec fn rows_text(state: GameState, p: Player, rows: nat) -> Seq<char>
    decreases rows,
{
    if rows == 0 {
        Seq::empty()
    } else {
        let d = rows - 1;
        rows_text(state, p, (rows - 1) as nat) + row_text(state, p, d, (2 * d + 1) as nat)
    }
}

/// The answer to `Look` for player `p`: one row per level and its own
/// tile's row, each row two tiles wider than the one before.
pub open spec fn look_text(state: GameState, p: Player) -> Seq<char> {
    "["@ + rows_text(state, p, (p.level + 1) as nat) + " ]\n"@
}

/// Where the `k`-th tile (from 0) of row `d` of a `Look` answer lies for a
/// player at (`x`, `y`) facing `orientation`, before wrapping: `d` tiles
/// ahead and `k - d` tiles to the right, so that each row runs from the
/// player's left to its right.
pub open spec fn looked_at(x: int, y: int, orientation: Orientation, d: int, k: int) -> (int, int) {
    match orientation {
        Orientation::North => (x + (k - d), y - d),
        Orientation::East => (x + d, y + (k - d)),
        Orientation::South => (x - (k - d), y + d),
        Orientation::West => (x - d, y - (k - d)),
    }
}

/// Row `d` of the answer to `Look` lists its tiles from the player's left
/// to its right: its first `k + 1` tiles are its first `k` and then the
/// content of the tile `d` ahead and `k - d` to the right, wrapped around
/// the map, after a comma on every row but the player's own. For a player
/// facing north at (x, y), row 1 starts on (x - 1, y - 1).
pub proof fn lemma_look_rows_run_left_to_right(state: GameState, p: Player, d: int, k: int)
    requires
        0 <= d,
        0 <= k <= 2 * d,
        state.map.spec_width() > 0,
        state.map.spec_height() > 0,
    ensures
        ({
            let (ax, ay) = looked_at(p.x as int, p.y as int, p.orientation, d, k);
            let content = tile_content(
                state,
                (ax % state.map.spec_width() as int) as usize,
                (ay % state.map.spec_height() as int) as usize,
            );
            row_text(state, p, d, (k + 1) as nat) == row_text(state, p, d, k as nat) + (if d == 0 {
                Seq::empty()
            } else {
                ","@
            }) + if content.len() == 0 {
                Seq::empty()
            } else {
                " "@ + content
            }
        }),
        p.orientation == Orientation::North && d == 1 && k == 0 ==> looked_at(p.x as int, p.y as int, p.orientation, d, k)
            == (p.x - 1, p.y - 1),
{
    let w = state.map.spec_width() as int;
    let h = state.map.spec_height() as int;
    let (ax, ay) = looked_at(p.x as int, p.y as int, p.orientation, d, k);
    let f = forward_delta_spec(p.orientation);
    let r = right_delta_spec(p.orientation);
    match p.orientation {
        Orientation::North => {
            assert(f == (0int, -1int) && r == (1int, 0int));
            assert(ax == p.x + (k - d) && ay == p.y - d);
        },
        Orientation::East => {
            assert(f == (1int, 0int) && r == (0int, 1int));
            assert(ax == p.x + d && ay == p.y + (k - d));
        },
        Orientation::South => {
            assert(f == (0int, 1int) && r == (-1int, 0int));
            assert(ax == p.x - (k - d) && ay == p.y + d);
        },
        Orientation::West => {
            assert(f == (-1int, 0int) && r == (0int, -1int));
            assert(ax == p.x - d && ay == p.y - (k - d));
        },
    }
    assert(p.x + f.0 * d + r.0 * (k - d) == ax) by (nonlinear_arith)
        requires
            (f.0 == 0 && r.0 == 1 && ax == p.x + (k - d)) || (f.0 == 1 && r.0 == 0 && ax == p.x + d) || (f.0
                == 0 && r.0 == -1 && ax == p.x - (k - d)) || (f.0 == -1 && r.0 == 0 && ax == p.x - d),
    ;
    assert(p.y + f.1 * d + r.1 * (k - d) == ay) by (nonlinear_arith)
        requires
            (f.1 == -1 && r.1 == 0 && ay == p.y - d) || (f.1 == 0 && r.1 == 1 && ay == p.y + (k - d)) || (f.1
                == 1 && r.1 == 0 && ay == p.y + d) || (f.1 == 0 && r.1 == -1 && ay == p.y - (k - d)),
    ;
    assert(-d + k == k - d);
    assert(seen_tile(p, d, k - d, state.map.spec_width(), state.map.spec_height()) == ({
        let (ax, ay) = looked_at(p.x as int, p.y as int, p.orientation, d, k);
        ((ax % state.map.spec_width() as int) as usize, (ay % state.map.spec_height() as int) as usize)
    }));
}

/// Brings a coordinate back onto a dimension of `size` cells.
fn wrap_wide(value: i128, size: usize) -> (wrapped: usize)
    requires
        size > 0,
    ensures
        wrapped as int == value as int % size as int,
        wrapped < size,
{
    let s = size as i128;
    if value >= 0 {
        proof {
            vstd::arithmetic::div_mod::lemma_fundamental_div_mod(value as int, s as int);
        }
        let r = value % s;
        r as usize
    } else {
        let steps_back = -(value + 1);
        let remainder = steps_back % s;
        proof {
            let k = steps_back as int;
            let q = k / (s as int);
            let r = remainder as int;
            vstd::arithmetic::div_mod::lemma_fundamental_div_mod(k, s as int);
            assert(value as int == (-q - 1) * (s as int) + (s as int - 1 - r)) by (nonlinear_arith)
                requires
                    k == (s as int) * q + r,
                    value as int == -k - 1,
            ;
            vstd::arithmetic::div_mod::lemma_fundamental_div_mod_converse(
                value as int,
                s as int,
                -q - 1,
                s as int - 1 - r,
            );
        }
        (s - 1 - remainder) as usize
    }
}

/// Appends `word` to `output`, which holds `words` separated by spaces;
/// `first` tells that there are none yet.
fn append_word(output: &mut String, word: &str, first: bool, Ghost(words): Ghost<Seq<Seq<char>>>)
    requires
        old(output)@ == spaced(words),
        first == (words.len() == 0),
    ensures
        final(output)@ == spaced(words.push(word@)),
{
    proof {
        reveal_strlit(" ");
        assert(words.push(word@).drop_last() =~= words);
    }
    if !first {
        append(output, " ");
    } else {
        assert(words.push(word@) =~= seq![word@]);
        assert(old(output)@ =~= Seq::<char>::empty());
    }
    append(output, word);
}

impl GameState {
    /// Number of players standing on (`x`, `y`).
    fn count_players_on(&self, x: usize, y: usize) -> (count: usize)
        ensures
            count == players_on(self.players@, x, y),
    {
        let mut count: usize = 0;
        let mut k: usize = 0;
        while k < self.players.len()
            invariant
                k <= self.players@.len(),
                count == players_on(self.players@.take(k as int), x, y),
                count <= k,
            decreases self.players@.len() - k,
        {
            assert(self.players@.take(k + 1).drop_last() =~= self.players@.take(k as int));
            if self.players[k].x == x && self.players[k].y == y {
                count = count + 1;
            }
            k = k + 1;
        }
        assert(self.players@.take(k as int) =~= self.players@);
        count
    }

    /// What a player sees on tile (`x`, `y`).
    fn tile_vision_content(&self, x: usize, y: usize) -> (content: String)
        requires
            self.map.wf(),
        ensures
            content@ == tile_content(*self, x, y),
    {
        let mut content = String::new();
        let mut first = true;
        let ghost mut words: Seq<Seq<char>> = Seq::empty();
        let players_here = self.count_players_on(x, y);
        let mut n: usize = 0;
        proof {
            reveal_strlit("player");
        }
        while n < players_here
            invariant
                n <= players_here,
                content@ == spaced(words),
                first == (words.len() == 0),
                words == repeated("player"@, n as nat),
            decreases players_here - n,
        {
            append_word(&mut content, "player", first, Ghost(words));
            first = false;
            proof {
                words = words.push("player"@);
                assert(words =~= repeated("player"@, (n + 1) as nat));
            }
            n = n + 1;
        }
        match self.map.get_tile(x, y) {
            Some(tile) => {
                let ghost prefix = words;
                let mut r: usize = 0;
                proof {
                    assert(words =~= prefix + resource_words(*tile, 0));
                }
                while r < 7
                    invariant
                        r <= 7,
                        content@ == spaced(words),
                        first == (words.len() == 0),
                        words == prefix + resource_words(*tile, r as nat),
                    decreases 7 - r,
                {
                    let resource = Resource::at_index(r);
                    let amount = tile.resource_count(resource);
                    let name = resource.protocol_name();
                    let ghost before = words;
                    let mut m: usize = 0;
                    while m < amount
                        invariant
                            m <= amount,
                            content@ == spaced(words),
                            first == (words.len() == 0),
                            words == before + repeated(resource_name(resource_at(r as nat)), m as nat),
                            name@ == resource_name(resource_at(r as nat)),
                        decreases amount - m,
                    {
                        append_word(&mut content, name, first, Ghost(words));
                        first = false;
                        proof {
                            words = words.push(name@);
                            assert(words =~= before + repeated(resource_name(resource_at(r as nat)), (m + 1) as nat));
                        }
                        m = m + 1;
                    }
                    proof {
                        assert(resource_words(*tile, (r + 1) as nat) =~= resource_words(*tile, r as nat) + repeated(
                            resource_name(resource_at(r as nat)),
                            tile.count(resource_at(r as nat)),
                        ));
                        assert(words =~= prefix + resource_words(*tile, (r + 1) as nat));
                    }
                    r = r + 1;
                }
                proof {
                    reveal_with_fuel(resource_words, 8);
                    assert(words =~= tile_words(self.players@, *tile, x, y));
                }
            },
            None => {},
        }
        content
    }
}

/// The resource words of a tile for the first `count` resources, in
/// protocol order.
pub open spec fn resource_words(tile: Inventory, count: nat) -> Seq<Seq<char>>
    decreases count,
{
    if count == 0 {
        Seq::empty()
    } else {
        resource_words(tile, (count - 1) as nat) + repeated(
            resource_name(resource_at((count - 1) as nat)),
            tile.count(resource_at((count - 1) as nat)),
        )
    }
}


impl GameState {
    /// The answer to `Look` for player `player_id`; none for an unknown
    /// player.
    pub fn look_response(&self, player_id: usize) -> (response: Option<String>)
        requires
            self.wf(),
        ensures
            match player_position(self.players@, player_id) {
                None => response is None,
                Some(i) => response matches Some(r) && r@ == look_text(*self, self.players@[i]),
            },
    {
        let i = self.find_player(player_id)?;
        let p = &self.players[i];
        let (forward_x, forward_y) = p.orientation.forward_delta();
        let (right_x, right_y) = p.orientation.right_delta();
        let width = self.map.width();
        let height = self.map.height();
        let mut response = String::new();
        append(&mut response, "[");
        let ghost start = response@;
        let level = p.level as u128;
        let mut distance: u128 = 0;
        proof {
            reveal_strlit("[");
        }
        while distance <= level
            invariant
                self.wf(),
                i < self.players@.len(),
                *p == self.players@[i as int],
                level == p.level,
                width == self.map.spec_width(),
                height == self.map.spec_height(),
                width > 0,
                height > 0,
                forward_x as int == forward_delta_spec(p.orientation).0,
                forward_y as int == forward_delta_spec(p.orientation).1,
                right_x as int == right_delta_spec(p.orientation).0,
                right_y as int == right_delta_spec(p.orientation).1,
                distance <= level + 1,
                response@ == start + rows_text(*self, *p, distance as nat),
            decreases level + 1 - distance,
        {
            let ghost row_start = response@;
            let count = 2 * distance + 1;
            let mut k: u128 = 0;
            while k < count
                invariant
                    self.wf(),
                    *p == self.players@[i as int],
                    width == self.map.spec_width(),
                    height == self.map.spec_height(),
                    width > 0,
                    height > 0,
                    forward_x as int == forward_delta_spec(p.orientation).0,
                    forward_y as int == forward_delta_spec(p.orientation).1,
                    right_x as int == right_delta_spec(p.orientation).0,
                    right_y as int == right_delta_spec(p.orientation).1,
                    distance <= level,
                    level == p.level,
                    count == 2 * distance + 1,
                    k <= count,
                    response@ == row_start + row_text(*self, *p, distance as int, k as nat),
                decreases count - k,
            {
                let lateral = k as i128 - distance as i128;
                let d = distance as i128;
                assert(-1 <= forward_x <= 1 && -1 <= forward_y <= 1 && -1 <= right_x <= 1 && -1 <= right_y <= 1);
                assert(-(d as int) <= (forward_x as int) * (d as int) <= d as int) by (nonlinear_arith)
                    requires
                        -1 <= forward_x <= 1,
                        0 <= d,
                ;
                assert(-(d as int) <= (forward_y as int) * (d as int) <= d as int) by (nonlinear_arith)
                    requires
                        -1 <= forward_y <= 1,
                        0 <= d,
                ;
                assert(-(d as int) <= (right_x as int) * (lateral as int) <= d as int) by (nonlinear_arith)
                    requires
                        -1 <= right_x <= 1,
                        -d <= lateral <= d,
                ;
                assert(-(d as int) <= (right_y as int) * (lateral as int) <= d as int) by (nonlinear_arith)
                    requires
                        -1 <= right_y <= 1,
                        -d <= lateral <= d,
                ;
                let wide_x = p.x as i128 + forward_x as i128 * d + right_x as i128 * lateral;
                let wide_y = p.y as i128 + forward_y as i128 * d + right_y as i128 * lateral;
                let x = wrap_wide(wide_x, width);
                let y = wrap_wide(wide_y, height);
                let content = self.tile_vision_content(x, y);
                let ghost before = response@;
                if distance > 0 {
                    append(&mut response, ",");
                }
                if !content.as_str().is_empty() {
                    append(&mut response, " ");
                    append(&mut response, content.as_str());
                }
                proof {
                    reveal_strlit(",");
                    reveal_strlit(" ");
                    assert(seen_tile(*p, distance as int, -(distance as int) + k, width as nat, height as nat) == (x, y));
                    assert(response@ =~= before + tile_entry(*self, *p, distance as int, -(distance as int) + (k + 1) - 1));
                }
                k = k + 1;
            }
            proof {
                assert(response@ =~= start + rows_text(*self, *p, (distance + 1) as nat));
            }
            distance = distance + 1;
        }
        append(&mut response, " ]\n");
        proof {
            reveal_strlit(" ]\n");
            assert(distance == level + 1);
            assert(response@ =~= look_text(*self, *p));
        }
        Some(response)
    }
}

} // verus!

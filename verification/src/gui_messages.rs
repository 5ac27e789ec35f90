//! The messages of the graphical-client protocol.
use vstd::prelude::*;

use crate::entities::{gui_value_spec, Egg, Player};
use crate::text::{append, append_decimal, decimal};
use crate::world::{resource_index, GameMap, Inventory, Resource};

verus! {

/// The seven counts of a stock, each after a space, in protocol order.
pub open spec fn inventory_text(inventory: Inventory) -> Seq<char> {
    " "@ + decimal(inventory.food as nat) + " "@ + decimal(inventory.linemate as nat) + " "@
        + decimal(inventory.deraumere as nat) + " "@ + decimal(inventory.sibur as nat) + " "@
        + decimal(inventory.mendiane as nat) + " "@ + decimal(inventory.phiras as nat) + " "@
        + decimal(inventory.thystame as nat)
}

/// `msz X Y`: the map's size.
pub open spec fn msz_text(width: nat, height: nat) -> Seq<char> {
    "msz "@ + decimal(width) + " "@ + decimal(height) + "\n"@
}

/// `bct X Y q0 .. q6`: what a tile holds.
pub open spec fn bct_text(x: nat, y: nat, tile: Inventory) -> Seq<char> {
    "bct "@ + decimal(x) + " "@ + decimal(y) + inventory_text(tile) + "\n"@
}

/// What `bct` answers for a position: nothing outside the map.
pub open spec fn bct_for(map: GameMap, x: nat, y: nat) -> Seq<char> {
    if map.contains(x as int, y as int) {
        bct_text(x, y, map.tile(x as int, y as int))
    } else {
        Seq::empty()
    }
}

/// `tna N`: a team's name.
pub open spec fn tna_text(team_name: Seq<char>) -> Seq<char> {
    "tna "@ + team_name + "\n"@
}

/// `pnw #n X Y O L N`: a new player.
pub open spec fn pnw_text(player: Player) -> Seq<char> {
    "pnw #"@ + decimal(player.id as nat) + " "@ + decimal(player.x as nat) + " "@ + decimal(
        player.y as nat,
    ) + " "@ + decimal(gui_value_spec(player.orientation)) + " "@ + decimal(player.level as nat)
        + " "@ + player.team_name@ + "\n"@
}

/// `ppo #n X Y O`: a player's position.
pub open spec fn ppo_text(player: Player) -> Seq<char> {
    "ppo #"@ + decimal(player.id as nat) + " "@ + decimal(player.x as nat) + " "@ + decimal(
        player.y as nat,
    ) + " "@ + decimal(gui_value_spec(player.orientation)) + "\n"@
}

/// `plv #n L`: a player's level.
pub open spec fn plv_text(player: Player) -> Seq<char> {
    "plv #"@ + decimal(player.id as nat) + " "@ + decimal(player.level as nat) + "\n"@
}

/// `pin #n X Y q0 .. q6`: a player's inventory.
pub open spec fn pin_text(player: Player) -> Seq<char> {
    "pin #"@ + decimal(player.id as nat) + " "@ + decimal(player.x as nat) + " "@ + decimal(
        player.y as nat,
    ) + inventory_text(player.inventory) + "\n"@
}

/// A message of the form `<tag> #n` about one player or egg.
pub open spec fn tagged_id_text(tag: Seq<char>, id: nat) -> Seq<char> {
    tag + " #"@ + decimal(id) + "\n"@
}

/// `pbc #n M`: a player's broadcast.
pub open spec fn pbc_text(player_id: nat, message: Seq<char>) -> Seq<char> {
    "pbc #"@ + decimal(player_id) + " "@ + message + "\n"@
}

/// ` #n` for each participant, in order.
pub open spec fn participants_text(participants: Seq<usize>) -> Seq<char>
    decreases participants.len(),
{
    if participants.len() == 0 {
        Seq::empty()
    } else {
        participants_text(participants.drop_last()) + " #"@ + decimal(
            participants.last() as nat,
        )
    }
}

/// `pic X Y L #n #n ..`: an incantation starts.
pub open spec fn pic_text(x: nat, y: nat, level: nat, participants: Seq<usize>) -> Seq<char> {
    "pic "@ + decimal(x) + " "@ + decimal(y) + " "@ + decimal(level) + participants_text(
        participants,
    ) + "\n"@
}

/// `pie X Y R`: an incantation ends, `R` being one on success.
pub open spec fn pie_text(x: nat, y: nat, success: bool) -> Seq<char> {
    "pie "@ + decimal(x) + " "@ + decimal(y) + " "@ + decimal(if success { 1 } else { 0 })
        + "\n"@
}

/// A message of the form `<tag> #n i` about a player and a resource.
pub open spec fn resource_event_text(tag: Seq<char>, player_id: nat, resource: Resource) -> Seq<
    char,
> {
    tag + " #"@ + decimal(player_id) + " "@ + decimal(resource_index(resource)) + "\n"@
}

/// The parent of an egg as the protocol writes it: `#n`, or `#-1` for none.
pub open spec fn parent_text(parent_id: Option<usize>) -> Seq<char> {
    match parent_id {
        Some(id) => "#"@ + decimal(id as nat),
        None => "#-1"@,
    }
}

/// `enw #e #n X Y`: an egg was laid.
pub open spec fn enw_text(egg: Egg) -> Seq<char> {
    "enw #"@ + decimal(egg.id as nat) + " "@ + parent_text(egg.parent_id) + " "@ + decimal(
        egg.x as nat,
    ) + " "@ + decimal(egg.y as nat) + "\n"@
}

/// `sgt T`: the time unit.
pub open spec fn sgt_text(frequency: nat) -> Seq<char> {
    "sgt "@ + decimal(frequency) + "\n"@
}

/// `seg N`: the game ended and team `N` won.
pub open spec fn seg_text(team_name: Seq<char>) -> Seq<char> {
    "seg "@ + team_name + "\n"@
}

fn append_inventory(output: &mut String, inventory: &Inventory)
    ensures
        final(output)@ == old(output)@ + inventory_text(*inventory),
{
    append(output, " ");
    append_decimal(output, inventory.food);
    append(output, " ");
    append_decimal(output, inventory.linemate);
    append(output, " ");
    append_decimal(output, inventory.deraumere);
    append(output, " ");
    append_decimal(output, inventory.sibur);
    append(output, " ");
    append_decimal(output, inventory.mendiane);
    append(output, " ");
    append_decimal(output, inventory.phiras);
    append(output, " ");
    append_decimal(output, inventory.thystame);
}

/// `msz X Y`.
pub fn msz(width: usize, height: usize) -> (text: String)
    ensures
        text@ == msz_text(width as nat, height as nat),
{
    let mut text = String::new();
    append(&mut text, "msz ");
    append_decimal(&mut text, width);
    append(&mut text, " ");
    append_decimal(&mut text, height);
    append(&mut text, "\n");
    text
}

/// `bct X Y q0 .. q6` for the tile at (`x`, `y`); empty outside the map.
pub fn bct(map: &GameMap, x: usize, y: usize) -> (text: String)
    requires
        map.wf(),
    ensures
        text@ == bct_for(*map, x as nat, y as nat),
{
    let mut text = String::new();
    match map.get_tile(x, y) {
        None => text,
        Some(tile) => {
            append(&mut text, "bct ");
            append_decimal(&mut text, x);
            append(&mut text, " ");
            append_decimal(&mut text, y);
            append_inventory(&mut text, tile);
            append(&mut text, "\n");
            text
        },
    }
}

/// `tna N`.
pub fn tna(team_name: &str) -> (text: String)
    ensures
        text@ == tna_text(team_name@),
{
    let mut text = String::new();
    append(&mut text, "tna ");
    append(&mut text, team_name);
    append(&mut text, "\n");
    text
}

/// `pnw #n X Y O L N`.
pub fn pnw(player: &Player) -> (text: String)
    ensures
        text@ == pnw_text(*player),
{
    let mut text = String::new();
    append(&mut text, "pnw #");
    append_decimal(&mut text, player.id);
    append(&mut text, " ");
    append_decimal(&mut text, player.x);
    append(&mut text, " ");
    append_decimal(&mut text, player.y);
    append(&mut text, " ");
    append_decimal(&mut text, player.orientation.gui_value());
    append(&mut text, " ");
    append_decimal(&mut text, player.level);
    append(&mut text, " ");
    append(&mut text, player.team_name.as_str());
    append(&mut text, "\n");
    text
}

/// `ppo #n X Y O`.
pub fn ppo(player: &Player) -> (text: String)
    ensures
        text@ == ppo_text(*player),
{
    let mut text = String::new();
    append(&mut text, "ppo #");
    append_decimal(&mut text, player.id);
    append(&mut text, " ");
    append_decimal(&mut text, player.x);
    append(&mut text, " ");
    append_decimal(&mut text, player.y);
    append(&mut text, " ");
    append_decimal(&mut text, player.orientation.gui_value());
    append(&mut text, "\n");
    text
}

/// `plv #n L`.
pub fn plv(player: &Player) -> (text: String)
    ensures
        text@ == plv_text(*player),
{
    let mut text = String::new();
    append(&mut text, "plv #");
    append_decimal(&mut text, player.id);
    append(&mut text, " ");
    append_decimal(&mut text, player.level);
    append(&mut text, "\n");
    text
}

/// `pin #n X Y q0 .. q6`.
pub fn pin(player: &Player) -> (text: String)
    ensures
        text@ == pin_text(*player),
{
    let mut text = String::new();
    append(&mut text, "pin #");
    append_decimal(&mut text, player.id);
    append(&mut text, " ");
    append_decimal(&mut text, player.x);
    append(&mut text, " ");
    append_decimal(&mut text, player.y);
    append_inventory(&mut text, &player.inventory);
    append(&mut text, "\n");
    text
}

fn tagged_id(tag: &str, id: usize) -> (text: String)
    ensures
        text@ == tagged_id_text(tag@, id as nat),
{
    let mut text = String::new();
    append(&mut text, tag);
    append(&mut text, " #");
    append_decimal(&mut text, id);
    append(&mut text, "\n");
    text
}

/// `pex #n`: a player ejected the others from its tile.
pub fn pex(player_id: usize) -> (text: String)
    ensures
        text@ == tagged_id_text("pex"@, player_id as nat),
{
    tagged_id("pex", player_id)
}

/// `pbc #n M`.
pub fn pbc(player_id: usize, message: &str) -> (text: String)
    ensures
        text@ == pbc_text(player_id as nat, message@),
{
    let mut text = String::new();
    append(&mut text, "pbc #");
    append_decimal(&mut text, player_id);
    append(&mut text, " ");
    append(&mut text, message);
    append(&mut text, "\n");
    text
}

/// `pic X Y L #n #n ..`.
pub fn pic(x: usize, y: usize, level: usize, participants: &[usize]) -> (text: String)
    ensures
        text@ == pic_text(x as nat, y as nat, level as nat, participants@),
{
    let mut text = String::new();
    append(&mut text, "pic ");
    append_decimal(&mut text, x);
    append(&mut text, " ");
    append_decimal(&mut text, y);
    append(&mut text, " ");
    append_decimal(&mut text, level);
    let ghost prefix = text@;
    let mut i: usize = 0;
    while i < participants.len()
        invariant
            i <= participants@.len(),
            text@ == prefix + participants_text(participants@.take(i as int)),
        decreases participants@.len() - i,
    {
        append(&mut text, " #");
        append_decimal(&mut text, participants[i]);
        assert(participants@.take(i + 1).drop_last() =~= participants@.take(i as int));
        i = i + 1;
    }
    assert(participants@.take(participants@.len() as int) =~= participants@);
    append(&mut text, "\n");
    text
}

/// `pie X Y R`.
pub fn pie(x: usize, y: usize, success: bool) -> (text: String)
    ensures
        text@ == pie_text(x as nat, y as nat, success),
{
    let mut text = String::new();
    append(&mut text, "pie ");
    append_decimal(&mut text, x);
    append(&mut text, " ");
    append_decimal(&mut text, y);
    append(&mut text, " ");
    append_decimal(&mut text, if success { 1 } else { 0 });
    append(&mut text, "\n");
    text
}

/// `pfk #n`: a player lays an egg.
pub fn pfk(player_id: usize) -> (text: String)
    ensures
        text@ == tagged_id_text("pfk"@, player_id as nat),
{
    tagged_id("pfk", player_id)
}

fn resource_event(tag: &str, player_id: usize, resource: Resource) -> (text: String)
    ensures
        text@ == resource_event_text(tag@, player_id as nat, resource),
{
    let mut text = String::new();
    append(&mut text, tag);
    append(&mut text, " #");
    append_decimal(&mut text, player_id);
    append(&mut text, " ");
    append_decimal(&mut text, resource.gui_index());
    append(&mut text, "\n");
    text
}

/// `pdr #n i`: a player dropped a resource.
pub fn pdr(player_id: usize, resource: Resource) -> (text: String)
    ensures
        text@ == resource_event_text("pdr"@, player_id as nat, resource),
{
    resource_event("pdr", player_id, resource)
}

/// `pgt #n i`: a player took a resource.
pub fn pgt(player_id: usize, resource: Resource) -> (text: String)
    ensures
        text@ == resource_event_text("pgt"@, player_id as nat, resource),
{
    resource_event("pgt", player_id, resource)
}

/// `pdi #n`: a player died.
pub fn pdi(player_id: usize) -> (text: String)
    ensures
        text@ == tagged_id_text("pdi"@, player_id as nat),
{
    tagged_id("pdi", player_id)
}

/// `enw #e #n X Y`.
pub fn enw(egg: &Egg) -> (text: String)
    ensures
        text@ == enw_text(*egg),
{
    let mut text = String::new();
    append(&mut text, "enw #");
    append_decimal(&mut text, egg.id);
    append(&mut text, " ");
    match egg.parent_id {
        Some(parent) => {
            append(&mut text, "#");
            append_decimal(&mut text, parent);
        },
        None => {
            append(&mut text, "#-1");
        },
    }
    append(&mut text, " ");
    append_decimal(&mut text, egg.x);
    append(&mut text, " ");
    append_decimal(&mut text, egg.y);
    append(&mut text, "\n");
    text
}

/// `ebo #e`: a player hatched from an egg.
pub fn ebo(egg_id: usize) -> (text: String)
    ensures
        text@ == tagged_id_text("ebo"@, egg_id as nat),
{
    tagged_id("ebo", egg_id)
}

/// `edi #e`: an egg was destroyed.
pub fn edi(egg_id: usize) -> (text: String)
    ensures
        text@ == tagged_id_text("edi"@, egg_id as nat),
{
    tagged_id("edi", egg_id)
}

/// `sgt T`.
pub fn sgt(frequency: usize) -> (text: String)
    ensures
        text@ == sgt_text(frequency as nat),
{
    let mut text = String::new();
    append(&mut text, "sgt ");
    append_decimal(&mut text, frequency);
    append(&mut text, "\n");
    text
}

/// `seg N`.
pub fn seg(team_name: &str) -> (text: String)
    ensures
        text@ == seg_text(team_name@),
{
    let mut text = String::new();
    append(&mut text, "seg ");
    append(&mut text, team_name);
    append(&mut text, "\n");
    text
}

} // verus!

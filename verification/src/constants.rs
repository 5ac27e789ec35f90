//! Protocol strings and the numbers of the game's rules.
use vstd::prelude::*;

verus! {

/// Reply to a command that succeeded.
pub const OK_RESPONSE: &'static str = "ok\n";

/// Reply to a command that failed.
pub const KO_RESPONSE: &'static str = "ko\n";

/// Sent to a player who starved.
pub const DEAD_RESPONSE: &'static str = "dead\n";

/// Sent to every participant when an incantation starts.
pub const ELEVATION_UNDERWAY_RESPONSE: &'static str = "Elevation underway\n";

/// First line sent to every new client.
pub const WELCOME_MESSAGE: &'static str = "WELCOME\n";

/// Team name with which a graphical client introduces itself.
pub const GRAPHIC_TEAM_NAME: &'static str = "GRAPHIC";

/// Address the server listens on.
pub const DEFAULT_BIND_ADDRESS: &'static str = "0.0.0.0";

/// Command-line usage.
pub const USAGE: &'static str = "USAGE: ./zappy_server -p port -x width -y height -n name1 name2 ... -c clientsNb -f freq";

/// Size of one read from a client socket.
pub const READ_BUFFER_SIZE: usize = 512;

/// Time units one unit of food keeps a player alive.
pub const FOOD_LIFETIME_TIME_UNITS: u64 = 126;

/// Time units between two refills of the map's resources.
pub const RESOURCE_RESPAWN_TIME_UNITS: u64 = 20;

/// Time units an incantation lasts.
pub const INCANTATION_TIME_UNITS: u64 = 300;

/// Food a newly hatched player carries.
pub const INITIAL_FOOD: usize = 10;

/// Level of a newly hatched player.
pub const INITIAL_LEVEL: usize = 1;

/// Highest level a player can reach.
pub const MAX_PLAYER_LEVEL: usize = 8;

/// Number of players of one team at the highest level that wins the game.
pub const WINNING_PLAYER_COUNT: usize = 6;

/// Commands a client may have queued or running at once.
pub const MAX_PENDING_COMMANDS: usize = 10;

/// Highest frequency a graphical client may set with `sst`.
pub const MAX_FREQUENCY: usize = 10000;

/// First identifiers handed out, and the step between two identifiers.
pub const FIRST_CLIENT_ID: usize = 1;

pub const FIRST_PLAYER_ID: usize = 1;

pub const FIRST_EGG_ID: usize = 1;

pub const FIRST_INCANTATION_ID: usize = 1;

pub const ID_INCREMENT: usize = 1;

/// Nanoseconds in one second.
pub const NANOS_PER_SECOND: u64 = 1000000000;

/// Nanoseconds in one millisecond.
pub const NANOS_PER_MILLI: u64 = 1000000;

} // verus!

//! The crosshair module of the graphical client: a switch, turned by the
//! `display_crosshair` command, whose state survives a reload as bytes.
use vstd::prelude::*;

use crate::config::{parse_unsigned, parse_bounded};
use crate::text::{append, same_text};

verus! {

/// The event the module subscribes to.
pub open spec fn update_event() -> Seq<char> {
    "crosshair:update_crosshair"@
}

/// The answer to a console command.
#[derive(Clone, Copy, Debug, PartialEq, Eq, Structural)]
pub enum ResponseCommand {
    Success,
    BadArgument,
    Unknown,
}

/// A console command that a module offers, as the console lists it.
pub struct CommandDesc {
    pub module: String,
    pub name: String,
    pub options: String,
    pub help: String,
}

/// The state of the module.
pub struct CrosshairModule {
    /// The crosshair is shown.
    pub active: bool,
    /// The module has subscribed to its event.
    pub initialized: bool,
}

/// What `bincode` writes for `value`: one byte, 1 for true and 0 for false.
pub open spec fn bool_bytes(value: bool) -> Seq<u8> {
    seq![if value {
        1u8
    } else {
        0u8
    }]
}

/// What `bincode` reads as a `bool` from `bytes`: their first byte, which
/// must be 0 or 1; what follows it is ignored.
pub open spec fn bool_of_bytes(bytes: Seq<u8>) -> Option<bool> {
    if bytes.len() > 0 && bytes[0] <= 1 {
        Some(bytes[0] == 1)
    } else {
        None
    }
}

/// `bincode::serialize` on a `bool`. Its source writes the value as one
/// byte, `v as u8`, into a vector, which cannot fail; the empty vector
/// stands for the error that the caller would otherwise get.
#[verifier::external_body]
fn encode_bool(value: bool) -> (bytes: Vec<u8>)
    ensures
        bytes@ == bool_bytes(value),
{
    bincode::serialize(&value).unwrap_or_default()
}

/// `bincode::deserialize::<bool>`. Its source reads one byte and accepts
/// 1 as true and 0 as false; any other byte, or no byte at all, is an
/// error. The default options of the function let bytes trail.
#[verifier::external_body]
fn decode_bool(bytes: &[u8]) -> (value: Option<bool>)
    ensures
        value == bool_of_bytes(bytes@),
{
    bincode::deserialize::<bool>(bytes).ok()
}

/// The answer to `run_command` for `cmd` and `args`, and whether the
/// crosshair is shown after it, it having been `active`.
pub open spec fn command_outcome(cmd: Seq<char>, args: Seq<Seq<char>>, active: bool) -> (ResponseCommand, bool) {
    if cmd == "display_crosshair"@ {
        if args.len() > 0 {
            match parse_unsigned(args[0], 255) {
                Some(n) => if n <= 1 {
                    (ResponseCommand::Success, n == 1)
                } else {
                    (ResponseCommand::BadArgument, active)
                },
                None => (ResponseCommand::BadArgument, active),
            }
        } else {
            (ResponseCommand::BadArgument, active)
        }
    } else {
        (ResponseCommand::Unknown, active)
    }
}

/// A state kept by `serialize` and taken back by `deserialize` shows or
/// hides the crosshair as it was.
pub proof fn lemma_state_round_trip(active: bool)
    ensures
        bool_of_bytes(bool_bytes(active)) == Some(active),
{
}

/// Once `display_crosshair` accepted a value, running the same command
/// again answers the same and leaves the crosshair as it is.
pub proof fn lemma_display_idempotent(args: Seq<Seq<char>>, active: bool)
    ensures
        command_outcome("display_crosshair"@, args, active).0 == ResponseCommand::Success ==> command_outcome(
            "display_crosshair"@,
            args,
            command_outcome("display_crosshair"@, args, active).1,
        ) == command_outcome("display_crosshair"@, args, active),
{
}

impl CrosshairModule {
    /// A module that has not subscribed yet, its crosshair hidden.
    pub fn new() -> (module: CrosshairModule)
        ensures
            !module.active,
            !module.initialized,
    {
        CrosshairModule { active: false, initialized: false }
    }

    /// Marks the module initialized; true when it was not, and must now
    /// subscribe to `crosshair:update_crosshair`.
    pub fn init_module(&mut self) -> (subscribe: bool)
        ensures
            subscribe == !old(self).initialized,
            final(self).initialized,
            final(self).active == old(self).active,
    {
        if self.initialized {
            return false;
        }
        self.initialized = true;
        true
    }

    /// The state to keep across a reload: whether the crosshair is shown.
    pub fn serialize(&self) -> (bytes: Vec<u8>)
        ensures
            bytes@ == bool_bytes(self.active),
    {
        encode_bool(self.active)
    }

    /// Takes back a state kept by `serialize`; bytes that hold none leave
    /// the module as it is.
    pub fn deserialize(&mut self, state_bytes: Vec<u8>)
        ensures
            final(self).active == match bool_of_bytes(state_bytes@) {
                Some(active) => active,
                None => old(self).active,
            },
            final(self).initialized == old(self).initialized,
    {
        match decode_bool(state_bytes.as_slice()) {
            Some(active) => self.active = active,
            None => {},
        }
    }

    /// The line to log for event `event_name` with `payload`: one for the
    /// module's event, none for any other.
    pub fn handle_event(event_name: &str, payload: &str) -> (log: Option<String>)
        ensures
            match log {
                Some(line) => event_name@ == update_event() && line@ == "crosshair updated: "@ + payload@,
                None => event_name@ != update_event(),
            },
    {
        if same_text(event_name, "crosshair:update_crosshair") {
            let mut line = String::new();
            append(&mut line, "crosshair updated: ");
            append(&mut line, payload);
            Some(line)
        } else {
            None
        }
    }

    /// Runs console command `cmd` with `args`: `display_crosshair 0` hides
    /// the crosshair and `display_crosshair 1` shows it.
    pub fn run_command(&mut self, cmd: &str, args: &Vec<String>) -> (response: ResponseCommand)
        ensures
            (response, final(self).active) == command_outcome(
                cmd@,
                args@.map_values(|a: String| a@),
                old(self).active,
            ),
            final(self).initialized == old(self).initialized,
    {
        if same_text(cmd, "display_crosshair") {
            if args.len() > 0 {
                match parse_bounded(args[0].as_str(), 255) {
                    Some(n) => if n <= 1 {
                        self.active = n == 1;
                        ResponseCommand::Success
                    } else {
                        ResponseCommand::BadArgument
                    },
                    None => ResponseCommand::BadArgument,
                }
            } else {
                ResponseCommand::BadArgument
            }
        } else {
            ResponseCommand::Unknown
        }
    }

    /// The console commands of the module.
    pub fn get_commands() -> (commands: Vec<CommandDesc>)
        ensures
            commands@.len() == 1,
            commands@[0].module@ == "crosshair"@,
            commands@[0].name@ == "display_crosshair"@,
            commands@[0].options@ == "<0|1>"@,
            commands@[0].help@ == "Show / hide crosshair"@,
    {
        let mut module = String::new();
        append(&mut module, "crosshair");
        let mut name = String::new();
        append(&mut name, "display_crosshair");
        let mut options = String::new();
        append(&mut options, "<0|1>");
        let mut help = String::new();
        append(&mut help, "Show / hide crosshair");
        vec![CommandDesc { module, name, options, help }]
    }
}

} // verus!

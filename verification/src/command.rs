//! The commands of the AI protocol and how long each one takes.
use vstd::prelude::*;

use crate::text::{chars_of, same_text, string_from_chars};
use crate::world::{resource_name, resource_named, Resource};

verus! {

/// A command sent by an AI client.
#[derive(Debug)]
pub enum Command {
    Forward,
    Right,
    Left,
    Look,
    Inventory,
    Broadcast(String),
    ConnectNbr,
    Fork,
    Eject,
    TakeObject(Resource),
    SetObject(Resource),
    Incantation,
    /// A line that is no command; it is answered `ko`.
    Unknown,
}

/// A command, its text taken as characters.
pub enum CommandView {
    Forward,
    Right,
    Left,
    Look,
    Inventory,
    Broadcast(Seq<char>),
    ConnectNbr,
    Fork,
    Eject,
    TakeObject(Resource),
    SetObject(Resource),
    Incantation,
    Unknown,
}

impl View for Command {
    type V = CommandView;

    open spec fn view(&self) -> CommandView {
        match self {
            Command::Forward => CommandView::Forward,
            Command::Right => CommandView::Right,
            Command::Left => CommandView::Left,
            Command::Look => CommandView::Look,
            Command::Inventory => CommandView::Inventory,
            Command::Broadcast(text) => CommandView::Broadcast(text@),
            Command::ConnectNbr => CommandView::ConnectNbr,
            Command::Fork => CommandView::Fork,
            Command::Eject => CommandView::Eject,
            Command::TakeObject(resource) => CommandView::TakeObject(*resource),
            Command::SetObject(resource) => CommandView::SetObject(*resource),
            Command::Incantation => CommandView::Incantation,
            Command::Unknown => CommandView::Unknown,
        }
    }
}

/// Length of the first word of `line`, which ends at the first space.
pub open spec fn word_end(line: Seq<char>) -> nat
    decreases line.len(),
{
    if line.len() == 0 {
        0
    } else if line[0] == ' ' {
        0
    } else {
        1 + word_end(line.drop_first())
    }
}

/// The command that `line` spells: a keyword, alone or followed by one
/// space and its argument.
pub open spec fn parse_command(line: Seq<char>) -> CommandView {
    let end = word_end(line);
    let word = line.take(end as int);
    let has_argument = end < line.len();
    let argument = line.skip(end + 1int);
    if !has_argument {
        if word == "Forward"@ {
            CommandView::Forward
        } else if word == "Right"@ {
            CommandView::Right
        } else if word == "Left"@ {
            CommandView::Left
        } else if word == "Look"@ {
            CommandView::Look
        } else if word == "Inventory"@ {
            CommandView::Inventory
        } else if word == "Connect_nbr"@ {
            CommandView::ConnectNbr
        } else if word == "Fork"@ {
            CommandView::Fork
        } else if word == "Eject"@ {
            CommandView::Eject
        } else if word == "Incantation"@ {
            CommandView::Incantation
        } else {
            CommandView::Unknown
        }
    } else if word == "Broadcast"@ {
        CommandView::Broadcast(argument)
    } else if word == "Take"@ && resource_named(argument) is Some {
        CommandView::TakeObject(resource_named(argument)->0)
    } else if word == "Set"@ && resource_named(argument) is Some {
        CommandView::SetObject(resource_named(argument)->0)
    } else {
        CommandView::Unknown
    }
}

/// How many time units a command lasts.
pub open spec fn command_time_units(command: CommandView) -> nat {
    match command {
        CommandView::Inventory => 1,
        CommandView::ConnectNbr => 0,
        CommandView::Fork => 42,
        CommandView::Incantation => 300,
        CommandView::Unknown => 0,
        _ => 7,
    }
}

fn first_word_end(chars: &Vec<char>) -> (end: usize)
    ensures
        end == word_end(chars@),
        end <= chars@.len(),
{
    let mut i: usize = 0;
    assert(chars@.skip(0) =~= chars@);
    while i < chars.len() && chars[i] != ' '
        invariant
            i <= chars@.len(),
            forall|j: int| 0 <= j < i ==> chars@[j] != ' ',
            word_end(chars@) == i + word_end(chars@.skip(i as int)),
        decreases chars@.len() - i,
    {
        assert(chars@.skip(i as int).drop_first() =~= chars@.skip(i + 1));
        i = i + 1;
    }
    if i < chars.len() {
        assert(chars@.skip(i as int)[0] == ' ');
    } else {
        assert(chars@.skip(i as int).len() == 0);
    }
    i
}

impl Command {
    /// The command that `line` spells; `Unknown` when it spells none.
    pub fn parse(line: &str) -> (command: Command)
        ensures
            command@ == parse_command(line@),
    {
        let chars = chars_of(line);
        let end = first_word_end(&chars);
        let word = string_from_chars(&chars[0..end]);
        let word = word.as_str();
        assert(word@ == line@.take(end as int));
        if end == chars.len() {
            if same_text(word, "Forward") {
                Command::Forward
            } else if same_text(word, "Right") {
                Command::Right
            } else if same_text(word, "Left") {
                Command::Left
            } else if same_text(word, "Look") {
                Command::Look
            } else if same_text(word, "Inventory") {
                Command::Inventory
            } else if same_text(word, "Connect_nbr") {
                Command::ConnectNbr
            } else if same_text(word, "Fork") {
                Command::Fork
            } else if same_text(word, "Eject") {
                Command::Eject
            } else if same_text(word, "Incantation") {
                Command::Incantation
            } else {
                Command::Unknown
            }
        } else {
            let argument = string_from_chars(&chars[end + 1..chars.len()]);
            assert(argument@ == line@.skip(end + 1));
            if same_text(word, "Broadcast") {
                Command::Broadcast(argument)
            } else if same_text(word, "Take") {
                match Resource::from_protocol_name(argument.as_str()) {
                    Some(resource) => Command::TakeObject(resource),
                    None => Command::Unknown,
                }
            } else if same_text(word, "Set") {
                match Resource::from_protocol_name(argument.as_str()) {
                    Some(resource) => Command::SetObject(resource),
                    None => Command::Unknown,
                }
            } else {
                Command::Unknown
            }
        }
    }

    /// How many time units the command lasts.
    pub fn time_units(&self) -> (units: u64)
        ensures
            units == command_time_units(self@),
    {
        match self {
            Command::Inventory => 1,
            Command::ConnectNbr => 0,
            Command::Fork => 42,
            Command::Incantation => 300,
            Command::Unknown => 0,
            _ => 7,
        }
    }

    /// The command is an incantation.
    pub fn is_incantation(&self) -> (incantation: bool)
        ensures
            incantation == (self@ is Incantation),
    {
        match self {
            Command::Incantation => true,
            _ => false,
        }
    }
}

/// A command being carried out, and when it completes.
pub struct ActiveCommand {
    pub command: Command,
    /// When the command completes, in nanoseconds of game time.
    pub finishes_at: u64,
    /// The incantation this command started, for an incantation.
    pub incantation_id: Option<usize>,
}

impl ActiveCommand {
    /// `command`, completing at `finishes_at`.
    pub fn new(command: Command, finishes_at: u64) -> (active: ActiveCommand)
        ensures
            active.command@ == command@,
            active.finishes_at == finishes_at,
            active.incantation_id.is_none(),
    {
        ActiveCommand { command, finishes_at, incantation_id: None }
    }
}

/// The line that spells `command`: its keyword, then for a command with
/// an argument one space and the argument; the empty line for `Unknown`.
pub open spec fn command_line(command: CommandView) -> Seq<char> {
    match command {
        CommandView::Forward => "Forward"@,
        CommandView::Right => "Right"@,
        CommandView::Left => "Left"@,
        CommandView::Look => "Look"@,
        CommandView::Inventory => "Inventory"@,
        CommandView::Broadcast(text) => "Broadcast"@ + " "@ + text,
        CommandView::ConnectNbr => "Connect_nbr"@,
        CommandView::Fork => "Fork"@,
        CommandView::Eject => "Eject"@,
        CommandView::TakeObject(resource) => "Take"@ + " "@ + resource_name(resource),
        CommandView::SetObject(resource) => "Set"@ + " "@ + resource_name(resource),
        CommandView::Incantation => "Incantation"@,
        CommandView::Unknown => Seq::empty(),
    }
}

/// A word without spaces, followed by nothing or by a space, is the first
/// word of the line.
proof fn lemma_word_end_of(word: Seq<char>, rest: Seq<char>)
    requires
        forall|i: int| 0 <= i < word.len() ==> word[i] != ' ',
        rest.len() == 0 || rest[0] == ' ',
    ensures
        word_end(word + rest) == word.len(),
    decreases word.len(),
{
    if word.len() == 0 {
        assert(word + rest =~= rest);
    } else {
        assert((word + rest).drop_first() =~= word.drop_first() + rest);
        lemma_word_end_of(word.drop_first(), rest);
    }
}

/// Each resource is found again by its name.
proof fn lemma_resource_named_name(resource: Resource)
    ensures
        resource_named(resource_name(resource)) == Some(resource),
{
    reveal_strlit("food");
    reveal_strlit("linemate");
    reveal_strlit("deraumere");
    reveal_strlit("sibur");
    reveal_strlit("mendiane");
    reveal_strlit("phiras");
    reveal_strlit("thystame");
    assert("food"@[0] == 'f');
    assert("linemate"@[0] == 'l');
    assert("deraumere"@[0] == 'd');
    assert("sibur"@[0] == 's');
    assert("mendiane"@[0] == 'm');
    assert("phiras"@[0] == 'p');
    assert("thystame"@[0] == 't');
    let name = resource_name(resource);
    assert(name[0] != 'f' ==> name != "food"@);
    assert(name[0] != 'l' ==> name != "linemate"@);
    assert(name[0] != 'd' ==> name != "deraumere"@);
    assert(name[0] != 's' ==> name != "sibur"@);
    assert(name[0] != 'm' ==> name != "mendiane"@);
    assert(name[0] != 'p' ==> name != "phiras"@);
    assert(name[0] != 't' ==> name != "thystame"@);
}

/// Every command is read back from the line that spells it: a keyword
/// names its own command and no other, and the argument after the space
/// comes back whole.
pub proof fn lemma_parse_command_line(command: CommandView)
    ensures
        parse_command(command_line(command)) == command,
{
    reveal_strlit("Forward");
    reveal_strlit("Right");
    reveal_strlit("Left");
    reveal_strlit("Look");
    reveal_strlit("Inventory");
    reveal_strlit("Connect_nbr");
    reveal_strlit("Fork");
    reveal_strlit("Eject");
    reveal_strlit("Incantation");
    reveal_strlit("Broadcast");
    reveal_strlit("Take");
    reveal_strlit("Set");
    reveal_strlit(" ");
    reveal_strlit("food");
    reveal_strlit("linemate");
    reveal_strlit("deraumere");
    reveal_strlit("sibur");
    reveal_strlit("mendiane");
    reveal_strlit("phiras");
    reveal_strlit("thystame");
    let line = command_line(command);
    match command {
        CommandView::Broadcast(text) => {
            lemma_word_end_of("Broadcast"@, " "@ + text);
            assert(line =~= "Broadcast"@ + (" "@ + text));
            assert(line.take(9) =~= "Broadcast"@);
            assert(line.skip(10) =~= text);
        },
        CommandView::TakeObject(resource) => {
            let name = resource_name(resource);
            lemma_word_end_of("Take"@, " "@ + name);
            assert(line =~= "Take"@ + (" "@ + name));
            assert(line.take(4) =~= "Take"@);
            assert(line.skip(5) =~= name);
            lemma_resource_named_name(resource);
        },
        CommandView::SetObject(resource) => {
            let name = resource_name(resource);
            lemma_word_end_of("Set"@, " "@ + name);
            assert(line =~= "Set"@ + (" "@ + name));
            assert(line.take(3) =~= "Set"@);
            assert(line.skip(4) =~= name);
            lemma_resource_named_name(resource);
        },
        _ => {
            lemma_word_end_of(line, Seq::empty());
            assert(line + Seq::<char>::empty() =~= line);
            assert(line.take(line.len() as int) =~= line);
            assert("Look"@[1] != "Left"@[1]);
            assert("Look"@ != "Left"@);
            assert("Fork"@[0] != "Left"@[0] && "Fork"@[0] != "Look"@[0]);
            assert("Fork"@ != "Left"@ && "Fork"@ != "Look"@);
            assert("Eject"@[0] != "Right"@[0]);
            assert("Eject"@ != "Right"@);
            assert("Incantation"@[0] != "Connect_nbr"@[0]);
            assert("Incantation"@ != "Connect_nbr"@);
        },
    }
}

} // verus!

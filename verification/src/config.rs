//! The server's command line: `-p port -x width -y height -n name1 name2
//! ... -c clientsNb -f freq`, or `--help`.
use vstd::prelude::*;

use crate::text::{append, chars_of, same_text};

verus! {

broadcast use vstd::string::group_string_axioms;

/// What the server runs with.
pub struct Config {
    pub port: u16,
    pub width: usize,
    pub height: usize,
    pub teams: Vec<String>,
    pub clients_nb: usize,
    pub freq: usize,
}

/// A configuration, team names taken as characters.
pub struct ConfigView {
    pub port: u16,
    pub width: usize,
    pub height: usize,
    pub teams: Seq<Seq<char>>,
    pub clients_nb: usize,
    pub freq: usize,
}

/// The texts of `strings`, in order.
pub open spec fn texts(strings: Seq<String>) -> Seq<Seq<char>> {
    strings.map_values(|s: String| s@)
}

impl View for Config {
    type V = ConfigView;

    open spec fn view(&self) -> ConfigView {
        ConfigView {
            port: self.port,
            width: self.width,
            height: self.height,
            teams: texts(self.teams@),
            clients_nb: self.clients_nb,
            freq: self.freq,
        }
    }
}

/// What the command line asks for.
pub enum ParseOutcome {
    /// Print the usage and stop.
    Help,
    /// Run with this configuration.
    Config(Config),
}

/// What the command line asks for, team names taken as characters.
pub enum OutcomeView {
    Help,
    Config(ConfigView),
}

impl View for ParseOutcome {
    type V = OutcomeView;

    open spec fn view(&self) -> OutcomeView {
        match self {
            ParseOutcome::Help => OutcomeView::Help,
            ParseOutcome::Config(config) => OutcomeView::Config(config@),
        }
    }
}

/// `c` is a decimal digit.
pub open spec fn is_digit(c: char) -> bool {
    '0' <= c <= '9'
}

/// The value of a string of decimal digits.
pub open spec fn digits_value(digits: Seq<char>) -> nat
    decreases digits.len(),
{
    if digits.len() == 0 {
        0
    } else {
        digits_value(digits.drop_last()) * 10 + (digits.last() as nat - '0' as nat) as nat
    }
}

/// The digits of an unsigned number written `text`: the text without one
/// leading `+`; none for an empty text or a lone `+`.
pub open spec fn unsigned_digits(text: Seq<char>) -> Option<Seq<char>> {
    if text.len() == 0 {
        None
    } else if text[0] == '+' {
        if text.len() == 1 {
            None
        } else {
            Some(text.drop_first())
        }
    } else {
        Some(text)
    }
}

/// The unsigned number written `text`, if it is one and at most `max`.
pub open spec fn parse_unsigned(text: Seq<char>, max: nat) -> Option<nat> {
    match unsigned_digits(text) {
        Some(digits) => if (forall|k: int| 0 <= k < digits.len() ==> #[trigger] is_digit(digits[k]))
            && digits_value(digits) <= max {
            Some(digits_value(digits))
        } else {
            None
        },
        None => None,
    }
}

/// A longer string of digits is worth at least as much.
proof fn lemma_digits_value_grows(digits: Seq<char>, n: int)
    requires
        0 <= n <= digits.len(),
        forall|k: int| 0 <= k < digits.len() ==> #[trigger] is_digit(digits[k]),
    ensures
        digits_value(digits.take(n)) <= digits_value(digits),
    decreases digits.len() - n,
{
    if n < digits.len() {
        lemma_digits_value_grows(digits, n + 1);
        assert(digits.take(n + 1).drop_last() =~= digits.take(n));
    } else {
        assert(digits.take(n) =~= digits);
    }
}

/// The unsigned number written `text`, if it is one and at most `max`.
pub fn parse_bounded(text: &str, max: usize) -> (value: Option<usize>)
    ensures
        match parse_unsigned(text@, max as nat) {
            Some(v) => value == Some(v as usize),
            None => value is None,
        },
{
    let chars = chars_of(text);
    if chars.len() == 0 {
        return None;
    }
    let mut start: usize = 0;
    if chars[0] == '+' {
        if chars.len() == 1 {
            return None;
        }
        start = 1;
    }
    let ghost digits = chars@.skip(start as int);
    proof {
        assert(unsigned_digits(text@) == Some(digits)) by {
            if start == 1 {
                assert(digits =~= text@.drop_first());
            } else {
                assert(digits =~= text@);
            }
        }
    }
    let mut value: usize = 0;
    let mut k: usize = start;
    while k < chars.len()
        invariant
            start <= k <= chars@.len(),
            digits == chars@.skip(start as int),
            unsigned_digits(text@) == Some(digits),
            forall|m: int| 0 <= m < k - start ==> #[trigger] is_digit(digits[m]),
            value == digits_value(digits.take(k - start)),
            value <= max,
        decreases chars@.len() - k,
    {
        let c = chars[k];
        assert(c == digits[k - start]);
        if !('0' <= c && c <= '9') {
            assert(!is_digit(digits[k - start]));
            return None;
        }
        let digit = (c as u32 - '0' as u32) as usize;
        assert(digits.take(k + 1 - start).drop_last() =~= digits.take(k - start));
        if digit > max || value > (max - digit) / 10 {
            proof {
                if digit <= max {
                    assert(value * 10 + digit > max) by (nonlinear_arith)
                        requires
                            value > (max - digit) / 10,
                            digit <= max,
                    ;
                }
                let longer = digits.take(k + 1 - start);
                assert(longer.last() == c);
                assert(digits_value(longer) == value * 10 + digit);
                if forall|m: int| 0 <= m < digits.len() ==> #[trigger] is_digit(digits[m]) {
                    lemma_digits_value_grows(digits, k + 1 - start);
                }
            }
            return None;
        }
        proof {
            assert(value * 10 + digit <= max) by (nonlinear_arith)
                requires
                    value <= (max - digit) / 10,
                    digit <= max,
            ;
        }
        value = value * 10 + digit;
        k = k + 1;
    }
    proof {
        assert(digits.take(k - start) =~= digits);
    }
    Some(value)
}


/// What the command line has given so far.
pub struct Scan {
    pub port: Option<u16>,
    pub width: Option<usize>,
    pub height: Option<usize>,
    pub teams: Seq<Seq<char>>,
    pub clients_nb: Option<usize>,
    pub freq: Option<usize>,
}

/// Nothing given yet.
pub open spec fn empty_scan() -> Scan {
    Scan { port: None, width: None, height: None, teams: Seq::empty(), clients_nb: None, freq: None }
}

/// The argument starts with `-`.
pub open spec fn starts_with_dash(arg: Seq<char>) -> bool {
    arg.len() > 0 && arg[0] == '-'
}

/// Where the team names that start at `j` end: at the first argument
/// starting with `-`, or at the end.
pub open spec fn team_run_end(args: Seq<Seq<char>>, j: int) -> int
    decreases args.len() - j,
{
    if j < 0 || j >= args.len() || starts_with_dash(args[j]) {
        j
    } else {
        team_run_end(args, j + 1)
    }
}

/// The team names run from `j` to their end, and end within the arguments.
pub proof fn lemma_team_run_end(args: Seq<Seq<char>>, j: int)
    requires
        0 <= j,
    ensures
        j <= team_run_end(args, j),
        j <= args.len() ==> team_run_end(args, j) <= args.len(),
    decreases args.len() - j,
{
    if j < args.len() && !starts_with_dash(args[j]) {
        lemma_team_run_end(args, j + 1);
    }
}

/// The value of flag `flag` found at `position`: a missing one or one
/// that is not an unsigned number up to `max` is an error.
pub open spec fn flag_value(args: Seq<Seq<char>>, position: int, flag: Seq<char>, max: nat) -> Result<nat, Seq<char>> {
    if position < 0 || position >= args.len() {
        Err("Missing value for "@ + flag)
    } else {
        match parse_unsigned(args[position], max) {
            Some(v) => Ok(v),
            None => Err("Invalid value for "@ + flag),
        }
    }
}

/// What the arguments from `i` on add to `scan`, or the first error: each
/// of `-p`, `-x`, `-y`, `-c` and `-f` takes the next argument as its
/// value, `-n` takes the arguments up to the next one starting with `-` as
/// team names, and any other argument is an error.
pub open spec fn scan_arguments(args: Seq<Seq<char>>, i: int, scan: Scan) -> Result<Scan, Seq<char>>
    decreases args.len() - i,
{
    if i < 0 || i >= args.len() {
        Ok(scan)
    } else {
        let arg = args[i];
        if arg == "-p"@ {
            match flag_value(args, i + 1, "-p"@, u16::MAX as nat) {
                Ok(v) => scan_arguments(args, i + 2, Scan { port: Some(v as u16), ..scan }),
                Err(e) => Err(e),
            }
        } else if arg == "-x"@ {
            match flag_value(args, i + 1, "-x"@, usize::MAX as nat) {
                Ok(v) => scan_arguments(args, i + 2, Scan { width: Some(v as usize), ..scan }),
                Err(e) => Err(e),
            }
        } else if arg == "-y"@ {
            match flag_value(args, i + 1, "-y"@, usize::MAX as nat) {
                Ok(v) => scan_arguments(args, i + 2, Scan { height: Some(v as usize), ..scan }),
                Err(e) => Err(e),
            }
        } else if arg == "-c"@ {
            match flag_value(args, i + 1, "-c"@, usize::MAX as nat) {
                Ok(v) => scan_arguments(args, i + 2, Scan { clients_nb: Some(v as usize), ..scan }),
                Err(e) => Err(e),
            }
        } else if arg == "-f"@ {
            match flag_value(args, i + 1, "-f"@, usize::MAX as nat) {
                Ok(v) => scan_arguments(args, i + 2, Scan { freq: Some(v as usize), ..scan }),
                Err(e) => Err(e),
            }
        } else if arg == "-n"@ {
            let end = team_run_end(args, i + 1);
            proof {
                lemma_team_run_end(args, i + 1);
            }
            scan_arguments(args, end, Scan { teams: scan.teams + args.subrange(i + 1, end), ..scan })
        } else {
            Err("Unknown argument: "@ + arg)
        }
    }
}

/// What is wrong with `config`, by the first rule it breaks: the port,
/// the sizes, the number of clients and the frequency must be positive,
/// and there must be teams.
pub open spec fn config_error(config: ConfigView) -> Option<Seq<char>> {
    if config.port < 1 {
        Some("Port must be greater than 0"@)
    } else if config.width < 1 {
        Some("Width must be greater than 0"@)
    } else if config.height < 1 {
        Some("Height must be greater than 0"@)
    } else if config.teams.len() == 0 {
        Some("Missing teams after -n"@)
    } else if config.clients_nb < 1 {
        Some("clientsNb must be greater than 0"@)
    } else if config.freq < 1 {
        Some("freq must be greater than 0"@)
    } else {
        None
    }
}

/// The configuration `scan` gives: a missing value is an error, by the
/// first one missing, then the configuration must be valid.
pub open spec fn configuration(scan: Scan) -> Result<ConfigView, Seq<char>> {
    if scan.port is None {
        Err("Missing -p port"@)
    } else if scan.width is None {
        Err("Missing -x width"@)
    } else if scan.height is None {
        Err("Missing -y height"@)
    } else if scan.clients_nb is None {
        Err("Missing -c clientsNb"@)
    } else if scan.freq is None {
        Err("Missing -f freq"@)
    } else {
        let config = ConfigView {
            port: scan.port->0,
            width: scan.width->0,
            height: scan.height->0,
            teams: scan.teams,
            clients_nb: scan.clients_nb->0,
            freq: scan.freq->0,
        };
        match config_error(config) {
            Some(e) => Err(e),
            None => Ok(config),
        }
    }
}

/// What the command line `args`, the program's name first, asks for:
/// `--help` anywhere asks for the usage; otherwise the arguments after the
/// program's name give the configuration.
pub open spec fn parsed_arguments(args: Seq<Seq<char>>) -> Result<OutcomeView, Seq<char>> {
    if args.contains("--help"@) {
        Ok(OutcomeView::Help)
    } else {
        match scan_arguments(args, 1, empty_scan()) {
            Err(e) => Err(e),
            Ok(scan) => match configuration(scan) {
                Ok(config) => Ok(OutcomeView::Config(config)),
                Err(e) => Err(e),
            },
        }
    }
}

/// The value of flag `flag`, expected at `position`, an unsigned number up
/// to `max`.
pub fn parse_next_value(args: &Vec<String>, position: usize, flag: &str, max: usize) -> (value: Result<usize, String>)
    ensures
        match flag_value(texts(args@), position as int, flag@, max as nat) {
            Ok(v) => value == Ok::<usize, String>(v as usize),
            Err(e) => value matches Err(m) && m@ == e,
        },
{
    if position >= args.len() {
        let mut message = String::new();
        append(&mut message, "Missing value for ");
        append(&mut message, flag);
        return Err(message);
    }
    match parse_bounded(args[position].as_str(), max) {
        Some(v) => Ok(v),
        None => {
            let mut message = String::new();
            append(&mut message, "Invalid value for ");
            append(&mut message, flag);
            Err(message)
        },
    }
}

/// The argument starts with `-`.
fn begins_with_dash(arg: &str) -> (dash: bool)
    ensures
        dash == starts_with_dash(arg@),
{
    let chars = chars_of(arg);
    chars.len() > 0 && chars[0] == '-'
}

/// Appends to `teams` the team names from `position` on, up to the next
/// argument starting with `-`; returns where they end.
pub fn parse_team_names(args: &Vec<String>, position: usize, teams: &mut Vec<String>) -> (end: usize)
    requires
        position <= args@.len(),
    ensures
        end == team_run_end(texts(args@), position as int),
        texts(final(teams)@) == texts(old(teams)@) + texts(args@).subrange(position as int, end as int),
{
    let ghost all = texts(args@);
    let mut j = position;
    proof {
        assert(all.subrange(position as int, position as int) =~= Seq::<Seq<char>>::empty());
        assert(texts(teams@) =~= texts(old(teams)@) + all.subrange(position as int, position as int));
    }
    while j < args.len() && !begins_with_dash(args[j].as_str())
        invariant
            position <= j <= args@.len(),
            all == texts(args@),
            team_run_end(all, position as int) == team_run_end(all, j as int),
            texts(teams@) == texts(old(teams)@) + all.subrange(position as int, j as int),
        decreases args@.len() - j,
    {
        let ghost prev = teams@;
        teams.push(args[j].clone());
        proof {
            assert(teams@ == prev.push(args@[j as int]));
            assert(texts(teams@) =~= texts(prev).push(all[j as int]));
            assert(all.subrange(position as int, j + 1) =~= all.subrange(position as int, j as int).push(all[j as int]));
            assert(texts(teams@) =~= texts(old(teams)@) + all.subrange(position as int, j + 1));
        }
        j = j + 1;
    }
    j
}

/// Checks `config` against the rules of a configuration.
pub fn validate_config(config: &Config) -> (checked: Result<(), String>)
    ensures
        match config_error(config@) {
            Some(e) => checked matches Err(m) && m@ == e,
            None => checked is Ok,
        },
{
    if config.port < 1 {
        return Err("Port must be greater than 0".to_owned());
    }
    if config.width < 1 {
        return Err("Width must be greater than 0".to_owned());
    }
    if config.height < 1 {
        return Err("Height must be greater than 0".to_owned());
    }
    if config.teams.len() == 0 {
        return Err("Missing teams after -n".to_owned());
    }
    if config.clients_nb < 1 {
        return Err("clientsNb must be greater than 0".to_owned());
    }
    if config.freq < 1 {
        return Err("freq must be greater than 0".to_owned());
    }
    Ok(())
}

/// One of `args` is `--help`.
fn asks_for_help(args: &Vec<String>) -> (help: bool)
    ensures
        help == texts(args@).contains("--help"@),
{
    let mut k: usize = 0;
    while k < args.len()
        invariant
            k <= args@.len(),
            forall|m: int| 0 <= m < k ==> texts(args@)[m] != "--help"@,
        decreases args@.len() - k,
    {
        if same_text(args[k].as_str(), "--help") {
            assert(texts(args@)[k as int] == "--help"@);
            return true;
        }
        k = k + 1;
    }
    false
}

/// What the command line `args`, the program's name first, asks for.
pub fn parse_args(args: &Vec<String>) -> (outcome: Result<ParseOutcome, String>)
    ensures
        match parsed_arguments(texts(args@)) {
            Ok(v) => outcome matches Ok(o) && o@ == v,
            Err(e) => outcome matches Err(m) && m@ == e,
        },
{
    if asks_for_help(args) {
        return Ok(ParseOutcome::Help);
    }
    let ghost all = texts(args@);
    let mut port: Option<u16> = None;
    let mut width: Option<usize> = None;
    let mut height: Option<usize> = None;
    let mut teams: Vec<String> = Vec::new();
    let mut clients_nb: Option<usize> = None;
    let mut freq: Option<usize> = None;
    let mut i: usize = 1;
    proof {
        assert(texts(teams@) =~= Seq::<Seq<char>>::empty());
    }
    while i < args.len()
        invariant
            1 <= i,
            all == texts(args@),
            !all.contains("--help"@),
            scan_arguments(all, 1, empty_scan()) == scan_arguments(
                all,
                i as int,
                Scan { port, width, height, teams: texts(teams@), clients_nb, freq },
            ),
        decreases args@.len() - i,
    {
        let arg = args[i].as_str();
        let ghost scan = Scan { port, width, height, teams: texts(teams@), clients_nb, freq };
        if same_text(arg, "-p") {
            match parse_next_value(args, i + 1, "-p", 65535) {
                Ok(v) => port = Some(v as u16),
                Err(e) => return Err(e),
            }
            i = i + 2;
        } else if same_text(arg, "-x") {
            match parse_next_value(args, i + 1, "-x", usize::MAX) {
                Ok(v) => width = Some(v),
                Err(e) => return Err(e),
            }
            i = i + 2;
        } else if same_text(arg, "-y") {
            match parse_next_value(args, i + 1, "-y", usize::MAX) {
                Ok(v) => height = Some(v),
                Err(e) => return Err(e),
            }
            i = i + 2;
        } else if same_text(arg, "-c") {
            match parse_next_value(args, i + 1, "-c", usize::MAX) {
                Ok(v) => clients_nb = Some(v),
                Err(e) => return Err(e),
            }
            i = i + 2;
        } else if same_text(arg, "-f") {
            match parse_next_value(args, i + 1, "-f", usize::MAX) {
                Ok(v) => freq = Some(v),
                Err(e) => return Err(e),
            }
            i = i + 2;
        } else if same_text(arg, "-n") {
            let first = i + 1;
            i = parse_team_names(args, first, &mut teams);
            proof {
                lemma_team_run_end(all, first as int);
            }
        } else {
            let mut message = String::new();
            append(&mut message, "Unknown argument: ");
            append(&mut message, arg);
            return Err(message);
        }
    }
    let ghost scan = Scan { port, width, height, teams: texts(teams@), clients_nb, freq };
    assert(scan_arguments(all, i as int, scan) == Ok::<Scan, Seq<char>>(scan));
    let port = match port {
        Some(port) => port,
        None => return Err("Missing -p port".to_owned()),
    };
    let width = match width {
        Some(width) => width,
        None => return Err("Missing -x width".to_owned()),
    };
    let height = match height {
        Some(height) => height,
        None => return Err("Missing -y height".to_owned()),
    };
    let clients_nb = match clients_nb {
        Some(clients_nb) => clients_nb,
        None => return Err("Missing -c clientsNb".to_owned()),
    };
    let freq = match freq {
        Some(freq) => freq,
        None => return Err("Missing -f freq".to_owned()),
    };
    let config = Config { port, width, height, teams, clients_nb, freq };
    match validate_config(&config) {
        Ok(()) => Ok(ParseOutcome::Config(config)),
        Err(e) => Err(e),
    }
}

} // verus!

//! What the server knows of a connected client: its pending input and
//! output, its role, and its commands.
use vstd::prelude::*;
use vstd::utf8::{decode_utf8, encode_utf8, valid_utf8};

use crate::command::{ActiveCommand, Command};
use crate::constants::MAX_PENDING_COMMANDS;

verus! {

/// Identifies a connection.
#[derive(Clone, Copy, Debug, PartialEq, Eq, Hash, Structural)]
pub struct ClientId(pub usize);

/// What a client has said it is.
#[derive(Clone, Copy, Debug, PartialEq, Eq, Structural)]
pub enum ClientState {
    /// Has not yet sent a team name.
    WaitingTeamName,
    /// Plays as an AI player.
    Ai,
    /// Watches as a graphical client.
    Gui,
}

/// A connection, without its socket: bytes read and not yet handled,
/// bytes to send, and the client's commands.
pub struct Client {
    pub input: Vec<u8>,
    pub output: Vec<u8>,
    /// How much of `output` has been sent already.
    pub output_offset: usize,
    pub state: ClientState,
    pub team_name: Option<String>,
    pub player_id: Option<usize>,
    /// Commands waiting their turn, oldest first.
    pub queue: Vec<Command>,
    /// The command being carried out.
    pub active: Option<ActiveCommand>,
    /// Close the connection once everything queued has been sent.
    pub close_after_flush: bool,
}

/// `client` has `output` and nothing else changed from `before`.
pub open spec fn same_but_output(before: Client, client: Client) -> bool {
    &&& client.input == before.input
    &&& client.output_offset == before.output_offset
    &&& client.state == before.state
    &&& client.team_name == before.team_name
    &&& client.player_id == before.player_id
    &&& client.queue == before.queue
    &&& client.active == before.active
    &&& client.close_after_flush == before.close_after_flush
}

/// Number of commands queued or running.
pub open spec fn outstanding(client: Client) -> nat {
    client.queue@.len() + if client.active.is_some() {
        1nat
    } else {
        0nat
    }
}

/// Position of the first line feed in `bytes`, if any.
pub open spec fn first_line_feed(bytes: Seq<u8>) -> Option<nat>
    decreases bytes.len(),
{
    if bytes.len() == 0 {
        None
    } else if bytes[0] == 10 {
        Some(0)
    } else {
        match first_line_feed(bytes.drop_first()) {
            Some(i) => Some(i + 1),
            None => None,
        }
    }
}

/// The complete lines of `bytes`, each without its line feed.
pub open spec fn complete_lines(bytes: Seq<u8>) -> Seq<Seq<u8>>
    decreases bytes.len(),
{
    match first_line_feed(bytes) {
        None => Seq::empty(),
        Some(i) => if i < bytes.len() {
            seq![bytes.take(i as int)] + complete_lines(bytes.skip(i + 1int))
        } else {
            Seq::empty()
        },
    }
}

/// What follows the last line feed of `bytes`.
pub open spec fn unfinished_line(bytes: Seq<u8>) -> Seq<u8>
    decreases bytes.len(),
{
    match first_line_feed(bytes) {
        None => bytes,
        Some(i) => if i < bytes.len() {
            unfinished_line(bytes.skip(i + 1int))
        } else {
            bytes
        },
    }
}

/// A line without the carriage return that may end it.
pub open spec fn without_carriage_return(line: Seq<u8>) -> Seq<u8> {
    if line.len() > 0 && line.last() == 13 {
        line.drop_last()
    } else {
        line
    }
}

/// What `std`'s lossy UTF-8 decoding makes of `bytes`.
pub uninterp spec fn lossy_utf8(bytes: Seq<u8>) -> Seq<char>;

/// `String::from_utf8_lossy`: decodes `bytes`, each invalid sequence
/// becoming a replacement character. Valid UTF-8 decodes unchanged, as its
/// documentation says; for the rest the result is named `lossy_utf8`.
#[verifier::external_body]
fn decode_lossy(bytes: &[u8]) -> (text: String)
    ensures
        text@ == lossy_utf8(bytes@),
        valid_utf8(bytes@) ==> text@ == decode_utf8(bytes@),
{
    String::from_utf8_lossy(bytes).to_string()
}

/// The text of a line as the server reads it: without the carriage return
/// that may end it, decoded leniently.
pub open spec fn line_text(line: Seq<u8>) -> Seq<char> {
    lossy_utf8(without_carriage_return(line))
}

impl Client {
    /// A client that has just connected.
    pub fn new() -> (client: Client)
        ensures
            client.input@.len() == 0,
            client.output@.len() == 0,
            client.output_offset == 0,
            client.state == ClientState::WaitingTeamName,
            client.team_name.is_none(),
            client.player_id.is_none(),
            client.queue@.len() == 0,
            client.active.is_none(),
            !client.close_after_flush,
    {
        Client {
            input: Vec::new(),
            output: Vec::new(),
            output_offset: 0,
            state: ClientState::WaitingTeamName,
            team_name: None,
            player_id: None,
            queue: Vec::new(),
            active: None,
            close_after_flush: false,
        }
    }

    /// Queues `text` to be sent.
    pub fn queue_text(&mut self, text: &str)
        ensures
            final(self).output@ == old(self).output@ + encode_utf8(text@),
            same_but_output(*old(self), *final(self)),
    {
        self.output.extend_from_slice(text.as_bytes());
        assert(self.output@ =~= old(self).output@ + encode_utf8(text@));
    }

    /// Part of the output has not been sent yet.
    pub fn has_pending_output(&self) -> (pending: bool)
        ensures
            pending == (self.output_offset < self.output@.len()),
    {
        self.output_offset < self.output.len()
    }

    /// Number of commands queued or running.
    pub fn outstanding_commands(&self) -> (count: usize)
        requires
            self.queue@.len() < usize::MAX,
        ensures
            count == outstanding(*self),
    {
        self.queue.len() + if self.active.is_some() {
            1
        } else {
            0
        }
    }

    /// Queues `command` unless the client already has as many commands as
    /// allowed queued or running.
    pub fn enqueue_command(&mut self, command: Command) -> (queued: bool)
        requires
            old(self).queue@.len() < usize::MAX,
        ensures
            queued == (outstanding(*old(self)) < MAX_PENDING_COMMANDS),
            outstanding(*old(self)) <= MAX_PENDING_COMMANDS ==> outstanding(*final(self)) <= MAX_PENDING_COMMANDS,
            queued ==> final(self).queue@ == old(self).queue@.push(command),
            !queued ==> final(self).queue@ == old(self).queue@,
            old(self).queue@.len() <= MAX_PENDING_COMMANDS ==> final(self).queue@.len() <= MAX_PENDING_COMMANDS,
            final(self).input == old(self).input,
            final(self).output == old(self).output,
            final(self).output_offset == old(self).output_offset,
            final(self).state == old(self).state,
            final(self).team_name == old(self).team_name,
            final(self).player_id == old(self).player_id,
            final(self).active == old(self).active,
            final(self).close_after_flush == old(self).close_after_flush,
    {
        if self.outstanding_commands() >= MAX_PENDING_COMMANDS {
            return false;
        }
        self.queue.push(command);
        true
    }

    /// Forgets the queued and running commands.
    pub fn clear_commands(&mut self)
        ensures
            final(self).queue@.len() == 0,
            final(self).active.is_none(),
            final(self).input == old(self).input,
            final(self).output == old(self).output,
            final(self).output_offset == old(self).output_offset,
            final(self).state == old(self).state,
            final(self).team_name == old(self).team_name,
            final(self).player_id == old(self).player_id,
            final(self).close_after_flush == old(self).close_after_flush,
    {
        self.queue.clear();
        self.active = None;
    }

    /// Takes the running command away, which leaves none running.
    pub fn take_active(&mut self) -> (active: Option<ActiveCommand>)
        ensures
            active == old(self).active,
            *final(self) == (Client { active: None, ..*old(self) }),
    {
        let active = self.active.take();
        active
    }

    /// Takes the oldest queued command out of the queue.
    pub fn pop_command(&mut self) -> (command: Command)
        requires
            old(self).queue@.len() > 0,
        ensures
            command == old(self).queue@[0],
            final(self).queue@ == old(self).queue@.drop_first(),
            final(self).input == old(self).input,
            final(self).output == old(self).output,
            final(self).output_offset == old(self).output_offset,
            final(self).state == old(self).state,
            final(self).team_name == old(self).team_name,
            final(self).player_id == old(self).player_id,
            final(self).active == old(self).active,
            final(self).close_after_flush == old(self).close_after_flush,
    {
        let command = self.queue.remove(0);
        assert(self.queue@ =~= old(self).queue@.drop_first());
        command
    }

    /// Makes `active` the running command.
    pub fn start_command(&mut self, active: ActiveCommand)
        ensures
            *final(self) == (Client { active: Some(active), ..*old(self) }),
    {
        self.active = Some(active);
    }

    /// Appends bytes read from the socket.
    pub fn receive(&mut self, bytes: &[u8])
        ensures
            final(self).input@ == old(self).input@ + bytes@,
            final(self).output == old(self).output,
            final(self).output_offset == old(self).output_offset,
            final(self).state == old(self).state,
            final(self).team_name == old(self).team_name,
            final(self).player_id == old(self).player_id,
            final(self).queue == old(self).queue,
            final(self).active == old(self).active,
            final(self).close_after_flush == old(self).close_after_flush,
    {
        self.input.extend_from_slice(bytes);
        assert(self.input@ =~= old(self).input@ + bytes@);
    }

    /// Records that the socket accepted `written` more bytes of the output.
    pub fn advance_output(&mut self, written: usize)
        requires
            old(self).output_offset + written <= old(self).output@.len(),
        ensures
            final(self).output_offset == old(self).output_offset + written,
            final(self).output == old(self).output,
            final(self).input == old(self).input,
            final(self).state == old(self).state,
            final(self).team_name == old(self).team_name,
            final(self).player_id == old(self).player_id,
            final(self).queue == old(self).queue,
            final(self).active == old(self).active,
            final(self).close_after_flush == old(self).close_after_flush,
    {
        let _len = self.output.len();
        self.output_offset = self.output_offset + written;
    }

    /// Once all the output has been sent, empties the output buffer.
    pub fn compact_output(&mut self)
        ensures
            old(self).output_offset == old(self).output@.len() ==> final(self).output@.len() == 0
                && final(self).output_offset == 0,
            old(self).output_offset != old(self).output@.len() ==> final(self).output
                == old(self).output && final(self).output_offset == old(self).output_offset,
            final(self).input == old(self).input,
            final(self).state == old(self).state,
            final(self).team_name == old(self).team_name,
            final(self).player_id == old(self).player_id,
            final(self).queue == old(self).queue,
            final(self).active == old(self).active,
            final(self).close_after_flush == old(self).close_after_flush,
    {
        if self.output_offset == self.output.len() {
            self.output.clear();
            self.output_offset = 0;
        }
    }

    /// Takes the complete lines out of the input, in order, each without its
    /// line feed nor the carriage return before it, and leaves the
    /// unfinished one.
    pub fn extract_complete_lines(&mut self) -> (lines: Vec<String>)
        ensures
            lines@.len() == complete_lines(old(self).input@).len(),
            forall|i: int|
                0 <= i < lines@.len() ==> #[trigger] lines@[i]@ == line_text(
                    complete_lines(old(self).input@)[i],
                ),
            forall|i: int|
                0 <= i < lines@.len() && valid_utf8(without_carriage_return(complete_lines(old(self).input@)[i]))
                    ==> #[trigger] lines@[i]@ == decode_utf8(without_carriage_return(complete_lines(old(self).input@)[i])),
            final(self).input@ == unfinished_line(old(self).input@),
            final(self).output == old(self).output,
            final(self).output_offset == old(self).output_offset,
            final(self).state == old(self).state,
            final(self).team_name == old(self).team_name,
            final(self).player_id == old(self).player_id,
            final(self).queue == old(self).queue,
            final(self).active == old(self).active,
            final(self).close_after_flush == old(self).close_after_flush,
    {
        let mut lines: Vec<String> = Vec::new();
        let ghost all = self.input@;
        let ghost mut raw: Seq<Seq<u8>> = Seq::empty();
        let mut start: usize = 0;
        let mut i: usize = 0;
        assert(all.skip(0) =~= all);
        while i < self.input.len()
            invariant
                all == self.input@,
                start <= i <= all.len(),
                forall|j: int| start <= j < i ==> all[j] != 10,
                complete_lines(all) == raw + complete_lines(all.skip(start as int)),
                unfinished_line(all) == unfinished_line(all.skip(start as int)),
                lines@.len() == raw.len(),
                forall|k: int| 0 <= k < lines@.len() ==> #[trigger] lines@[k]@ == line_text(raw[k]),
                forall|k: int|
                    0 <= k < lines@.len() && valid_utf8(without_carriage_return(raw[k])) ==> #[trigger] lines@[k]@
                        == decode_utf8(without_carriage_return(raw[k])),
            decreases all.len() - i,
        {
            if self.input[i] == 10 {
                let ghost rest = all.skip(start as int);
                proof {
                    lemma_first_line_feed_at(rest, (i - start) as nat);
                    assert(rest.take((i - start) as int) =~= all.subrange(start as int, i as int));
                    assert(rest.skip((i - start) + 1) =~= all.skip(i + 1));
                }
                let mut end = i;
                if end > start && self.input[end - 1] == 13 {
                    end = end - 1;
                }
                let text = decode_lossy(&self.input[start..end]);
                proof {
                    assert(self.input@.subrange(start as int, end as int) =~= without_carriage_return(
                        all.subrange(start as int, i as int),
                    ));
                    raw = raw.push(all.subrange(start as int, i as int));
                }
                lines.push(text);
                start = i + 1;
            }
            i = i + 1;
        }
        proof {
            lemma_no_line_feed(all.skip(start as int));
        }
        let remainder = vstd::slice::slice_to_vec(&self.input[start..self.input.len()]);
        self.input = remainder;
        assert(self.input@ =~= all.skip(start as int));
        assert(complete_lines(all) =~= raw);
        lines
    }
}

/// The first line feed of `bytes` is at `k` when `bytes[k]` is one and no
/// byte before it is.
proof fn lemma_first_line_feed_at(bytes: Seq<u8>, k: nat)
    requires
        k < bytes.len(),
        bytes[k as int] == 10,
        forall|j: int| 0 <= j < k ==> bytes[j] != 10,
    ensures
        first_line_feed(bytes) == Some(k),
    decreases k,
{
    if k > 0 {
        lemma_first_line_feed_at(bytes.drop_first(), (k - 1) as nat);
    }
}

/// Bytes without a line feed have no complete line.
proof fn lemma_no_line_feed(bytes: Seq<u8>)
    requires
        forall|j: int| 0 <= j < bytes.len() ==> bytes[j] != 10,
    ensures
        first_line_feed(bytes) is None,
        complete_lines(bytes).len() == 0,
        unfinished_line(bytes) == bytes,
    decreases bytes.len(),
{
    if bytes.len() > 0 {
        lemma_no_line_feed(bytes.drop_first());
    }
}

/// Where `first_line_feed` points there is a line feed, and none before;
/// when it finds none, there is none.
proof fn lemma_first_line_feed_found(bytes: Seq<u8>)
    ensures
        first_line_feed(bytes) matches Some(i) ==> i < bytes.len() && bytes[i as int] == 10 && forall|j: int|
            0 <= j < i ==> bytes[j] != 10,
        first_line_feed(bytes) is None ==> forall|j: int| 0 <= j < bytes.len() ==> bytes[j] != 10,
    decreases bytes.len(),
{
    if bytes.len() > 0 && bytes[0] != 10 {
        lemma_first_line_feed_found(bytes.drop_first());
        assert forall|j: int| 0 < j < bytes.len() implies bytes[j] == bytes.drop_first()[j - 1] by {}
    }
}

/// The lines of `lines`, each followed by a line feed.
pub open spec fn joined_lines(lines: Seq<Seq<u8>>) -> Seq<u8>
    decreases lines.len(),
{
    if lines.len() == 0 {
        Seq::empty()
    } else {
        lines[0] + seq![10u8] + joined_lines(lines.drop_first())
    }
}

/// Cutting input into lines loses nothing and adds nothing: the complete
/// lines, each with its line feed back, then what follows the last line
/// feed give the input again; no complete line holds a line feed, and
/// neither does what is left.
pub proof fn lemma_lines_rebuild(bytes: Seq<u8>)
    ensures
        joined_lines(complete_lines(bytes)) + unfinished_line(bytes) == bytes,
        forall|k: int, j: int|
            0 <= k < complete_lines(bytes).len() && 0 <= j < complete_lines(bytes)[k].len()
                ==> #[trigger] complete_lines(bytes)[k][j] != 10,
        forall|j: int| 0 <= j < unfinished_line(bytes).len() ==> #[trigger] unfinished_line(bytes)[j] != 10,
    decreases bytes.len(),
{
    lemma_first_line_feed_found(bytes);
    match first_line_feed(bytes) {
        None => {
            assert(joined_lines(complete_lines(bytes)) =~= Seq::<u8>::empty());
            assert(Seq::<u8>::empty() + bytes =~= bytes);
        },
        Some(i) => {
            let rest = bytes.skip(i + 1int);
            lemma_lines_rebuild(rest);
            let lines = complete_lines(bytes);
            assert(lines == seq![bytes.take(i as int)] + complete_lines(rest));
            assert(lines.drop_first() =~= complete_lines(rest));
            assert(joined_lines(lines) == bytes.take(i as int) + seq![10u8] + joined_lines(complete_lines(rest)));
            assert(bytes.take(i as int) + seq![10u8] + joined_lines(complete_lines(rest)) + unfinished_line(rest)
                =~= bytes.take(i as int) + seq![10u8] + (joined_lines(complete_lines(rest)) + unfinished_line(rest)));
            assert(bytes.take(i as int) + seq![10u8] + rest =~= bytes);
            assert forall|k: int, j: int|
                0 <= k < lines.len() && 0 <= j < lines[k].len() implies #[trigger] lines[k][j] != 10 by {
                if k > 0 {
                    assert(lines[k] == complete_lines(rest)[k - 1]);
                    assert(complete_lines(rest)[k - 1][j] != 10);
                }
            }
        },
    }
}

} // verus!

//! The host's bookkeeping for its plugins: the commands they offer and
//! the logs waiting to be passed on to them.
use vstd::prelude::*;

use vstd::relations::{sorted_by, total_ordering};

use crate::config::texts;
use crate::console::{command_texts, SharedEngineState, TextSegment};
use crate::text::{append, chars_of, same_text, string_from_chars};

verus! {

/// The commands of `commands` not named `name`, in order.
pub open spec fn commands_not_named(commands: Seq<(Seq<char>, Seq<char>)>, name: Seq<char>) -> Seq<(Seq<char>, Seq<char>)>
    decreases commands.len(),
{
    if commands.len() == 0 {
        Seq::empty()
    } else {
        let rest = commands_not_named(commands.drop_last(), name);
        if commands.last().0 != name {
            rest.push(commands.last())
        } else {
            rest
        }
    }
}

impl SharedEngineState {
    /// Nothing cached, queued or waiting.
    pub fn new() -> (state: SharedEngineState)
        ensures
            state.cached_commands@.len() == 0,
            state.reload_queue@.len() == 0,
            state.logs_to_broadcast@.len() == 0,
    {
        SharedEngineState { cached_commands: Vec::new(), reload_queue: Vec::new(), logs_to_broadcast: Vec::new() }
    }

    /// Adds the commands of a plugin that was loaded, in order.
    pub fn cache_commands(&mut self, commands: Vec<(String, String)>)
        ensures
            command_texts(final(self).cached_commands@) == command_texts(old(self).cached_commands@)
                + command_texts(commands@),
            final(self).reload_queue == old(self).reload_queue,
            final(self).logs_to_broadcast == old(self).logs_to_broadcast,
    {
        let ghost start = command_texts(self.cached_commands@);
        let ghost all = commands@;
        let mut k: usize = 0;
        while k < commands.len()
            invariant
                commands@ == all,
                k <= all.len(),
                command_texts(self.cached_commands@) == start + command_texts(all.take(k as int)),
                self.reload_queue == old(self).reload_queue,
                self.logs_to_broadcast == old(self).logs_to_broadcast,
            decreases all.len() - k,
        {
            let (name, help) = (commands[k].0.clone(), commands[k].1.clone());
            let ghost prev = self.cached_commands@;
            self.cached_commands.push((name, help));
            proof {
                assert(command_texts(self.cached_commands@) =~= command_texts(prev).push(
                    (all[k as int].0@, all[k as int].1@),
                ));
                assert(command_texts(all.take(k + 1)) =~= command_texts(all.take(k as int)).push(
                    (all[k as int].0@, all[k as int].1@),
                ));
                assert(command_texts(self.cached_commands@) =~= start + command_texts(all.take(k + 1)));
            }
            k = k + 1;
        }
        assert(all.take(k as int) =~= all);
    }

    /// Forgets the cached commands whose name is `name`, then adds
    /// `commands`, those of the plugin `name` once reloaded.
    pub fn replace_cached_commands(&mut self, name: &str, commands: Vec<(String, String)>)
        ensures
            command_texts(final(self).cached_commands@) == commands_not_named(
                command_texts(old(self).cached_commands@),
                name@,
            ) + command_texts(commands@),
            final(self).reload_queue == old(self).reload_queue,
            final(self).logs_to_broadcast == old(self).logs_to_broadcast,
    {
        let ghost before = command_texts(self.cached_commands@);
        let mut kept: Vec<(String, String)> = Vec::new();
        let mut k: usize = 0;
        while k < self.cached_commands.len()
            invariant
                k <= self.cached_commands@.len(),
                command_texts(self.cached_commands@) == before,
                command_texts(kept@) == commands_not_named(before.take(k as int), name@),
            decreases self.cached_commands@.len() - k,
        {
            proof {
                assert(before.take(k + 1).drop_last() =~= before.take(k as int));
            }
            if !same_text(self.cached_commands[k].0.as_str(), name) {
                let entry = (self.cached_commands[k].0.clone(), self.cached_commands[k].1.clone());
                kept.push(entry);
                proof {
                    assert(command_texts(kept@) =~= command_texts(kept@.drop_last()).push(before[k as int]));
                }
            } else {
                proof {
                    assert(before[k as int].0 == name@);
                }
            }
            k = k + 1;
        }
        proof {
            assert(before.take(k as int) =~= before);
        }
        self.cached_commands = kept;
        self.cache_commands(commands);
    }

    /// Hands over the logs waiting to be passed on, leaving none.
    pub fn take_logs(&mut self) -> (logs: Vec<Vec<TextSegment>>)
        ensures
            logs == old(self).logs_to_broadcast,
            final(self).logs_to_broadcast@.len() == 0,
            final(self).cached_commands == old(self).cached_commands,
            final(self).reload_queue == old(self).reload_queue,
    {
        let mut logs: Vec<Vec<TextSegment>> = Vec::new();
        std::mem::swap(&mut logs, &mut self.logs_to_broadcast);
        logs
    }
}

/// `a` comes before `b`, or is `b`, in the order of their characters,
/// compared one by one from the first.
pub open spec fn text_le(a: Seq<char>, b: Seq<char>) -> bool
    decreases a.len(),
{
    if a.len() == 0 {
        true
    } else if b.len() == 0 {
        false
    } else if a[0] != b[0] {
        (a[0] as int) < (b[0] as int)
    } else {
        text_le(a.drop_first(), b.drop_first())
    }
}

/// The order of texts by their characters.
pub open spec fn text_order() -> spec_fn(Seq<char>, Seq<char>) -> bool {
    |a: Seq<char>, b: Seq<char>| text_le(a, b)
}

proof fn lemma_text_le_reflexive(a: Seq<char>)
    ensures
        text_le(a, a),
    decreases a.len(),
{
    if a.len() > 0 {
        lemma_text_le_reflexive(a.drop_first());
    }
}

proof fn lemma_text_le_antisymmetric(a: Seq<char>, b: Seq<char>)
    requires
        text_le(a, b),
        text_le(b, a),
    ensures
        a == b,
    decreases a.len(),
{
    if a.len() > 0 && b.len() > 0 {
        lemma_text_le_antisymmetric(a.drop_first(), b.drop_first());
        assert(a =~= seq![a[0]] + a.drop_first());
        assert(b =~= seq![b[0]] + b.drop_first());
    } else {
        assert(a =~= b);
    }
}

proof fn lemma_text_le_transitive(a: Seq<char>, b: Seq<char>, c: Seq<char>)
    requires
        text_le(a, b),
        text_le(b, c),
    ensures
        text_le(a, c),
    decreases a.len(),
{
    if a.len() > 0 && b.len() > 0 && c.len() > 0 && a[0] == b[0] && b[0] == c[0] {
        lemma_text_le_transitive(a.drop_first(), b.drop_first(), c.drop_first());
    }
}

proof fn lemma_text_le_total(a: Seq<char>, b: Seq<char>)
    ensures
        text_le(a, b) || text_le(b, a),
    decreases a.len(),
{
    if a.len() > 0 && b.len() > 0 && a[0] == b[0] {
        lemma_text_le_total(a.drop_first(), b.drop_first());
    }
}

/// Texts ordered by their characters form a total order.
pub proof fn lemma_text_order_total()
    ensures
        total_ordering(text_order()),
{
    let le = text_order();
    assert forall|a: Seq<char>| #[trigger] le(a, a) by {
        lemma_text_le_reflexive(a);
    }
    assert forall|a: Seq<char>, b: Seq<char>| #[trigger] le(a, b) && #[trigger] le(b, a) implies a == b by {
        lemma_text_le_antisymmetric(a, b);
    }
    assert forall|a: Seq<char>, b: Seq<char>, c: Seq<char>|
        #[trigger] le(a, b) && #[trigger] le(b, c) implies le(a, c) by {
        lemma_text_le_transitive(a, b, c);
    }
    assert forall|a: Seq<char>, b: Seq<char>| #[trigger] le(a, b) || #[trigger] le(b, a) by {
        lemma_text_le_total(a, b);
    }
}

/// Whether `a` comes before `b`, or is `b` (see `text_le`).
fn text_at_most(a: &str, b: &str) -> (le: bool)
    ensures
        le == text_le(a@, b@),
{
    let x = chars_of(a);
    let y = chars_of(b);
    let mut i: usize = 0;
    assert(a@.skip(0) =~= a@);
    assert(b@.skip(0) =~= b@);
    while i < x.len() && i < y.len() && x[i] == y[i]
        invariant
            i <= x@.len(),
            i <= y@.len(),
            x@ == a@,
            y@ == b@,
            text_le(a@, b@) == text_le(a@.skip(i as int), b@.skip(i as int)),
        decreases x@.len() - i,
    {
        assert(a@.skip(i as int).drop_first() =~= a@.skip(i + 1));
        assert(b@.skip(i as int).drop_first() =~= b@.skip(i + 1));
        i = i + 1;
    }
    if i == x.len() {
        assert(a@.skip(i as int).len() == 0);
        true
    } else if i == y.len() {
        assert(b@.skip(i as int).len() == 0);
        false
    } else {
        assert(a@.skip(i as int)[0] == x@[i as int]);
        assert(b@.skip(i as int)[0] == y@[i as int]);
        x[i] < y[i]
    }
}

/// The file name is a plugin's: a name, then `.wasm`.
pub open spec fn is_plugin_file(name: Seq<char>) -> bool {
    name.len() > 5 && name.skip(name.len() - 5) == ".wasm"@
}

/// The plugin files among the file names `names`, in order.
pub open spec fn plugin_files_of(names: Seq<Seq<char>>) -> Seq<Seq<char>>
    decreases names.len(),
{
    if names.len() == 0 {
        Seq::empty()
    } else {
        let rest = plugin_files_of(names.drop_last());
        if is_plugin_file(names.last()) {
            rest.push(names.last())
        } else {
            rest
        }
    }
}

/// The file name is a plugin's (see `is_plugin_file`).
fn plugin_file(name: &str) -> (plugin: bool)
    ensures
        plugin == is_plugin_file(name@),
{
    let chars = chars_of(name);
    let n = chars.len();
    proof {
        reveal_strlit(".wasm");
    }
    if n <= 5 {
        return false;
    }
    let plugin = chars[n - 5] == '.' && chars[n - 4] == 'w' && chars[n - 3] == 'a' && chars[n - 2] == 's'
        && chars[n - 1] == 'm';
    proof {
        let tail = name@.skip(n - 5);
        if plugin {
            assert(tail =~= ".wasm"@);
        } else {
            assert(tail != ".wasm"@) by {
                if tail == ".wasm"@ {
                    assert(tail[0] == '.' && tail[1] == 'w' && tail[2] == 'a' && tail[3] == 's' && tail[4] == 'm');
                }
            }
        }
    }
    plugin
}

/// The plugin files among the file names `names`, in the order of their
/// names (see `text_le`), as the host loads them.
pub fn plugin_files(names: &Vec<String>) -> (files: Vec<String>)
    ensures
        texts(files@) == plugin_files_of(texts(names@)).sort_by(text_order()),
{
    broadcast use vstd::seq_lib::group_to_multiset_ensures;

    let ghost all = texts(names@);
    let ghost le = text_order();
    proof {
        lemma_text_order_total();
    }
    let mut files: Vec<String> = Vec::new();
    let mut k: usize = 0;
    while k < names.len()
        invariant
            k <= names@.len(),
            all == texts(names@),
            le == text_order(),
            total_ordering(le),
            sorted_by(texts(files@), le),
            texts(files@).to_multiset() == plugin_files_of(all.take(k as int)).to_multiset(),
        decreases names@.len() - k,
    {
        assert(all.take(k + 1).drop_last() =~= all.take(k as int));
        assert(all.take(k + 1).last() == all[k as int]);
        assert(names@[k as int]@ == all[k as int]);
        if plugin_file(names[k].as_str()) {
            let ghost before = texts(files@);
            let mut p: usize = 0;
            while p < files.len() && text_at_most(files[p].as_str(), names[k].as_str())
                invariant
                    p <= files@.len(),
                    before == texts(files@),
                    all == texts(names@),
                    k < names@.len(),
                    forall|i: int| 0 <= i < p ==> #[trigger] le(before[i], all[k as int]),
                    le == text_order(),
                decreases files@.len() - p,
            {
                p = p + 1;
            }
            proof {
                if p < files@.len() {
                    lemma_text_le_total(before[p as int], all[k as int]);
                }
            }
            files.insert(p, names[k].clone());
            proof {
                let x = all[k as int];
                let after = texts(files@);
                assert(after =~= before.insert(p as int, x));
                assert forall|i: int, j: int| 0 <= i < j < after.len() implies #[trigger] le(after[i], after[j]) by {
                    if j < p {
                        assert(le(before[i], before[j]));
                    } else if j == p {
                        assert(le(before[i], x));
                    } else if i < p {
                        assert(le(before[i], before[j - 1]));
                    } else if i == p {
                        assert(le(before[p as int], before[j - 1]) || p == j - 1);
                        if p < j - 1 {
                            lemma_text_le_transitive(x, before[p as int], before[j - 1]);
                        }
                    } else {
                        assert(le(before[i - 1], before[j - 1]));
                    }
                }
                vstd::seq_lib::to_multiset_insert(before, p as int, x);
                assert(plugin_files_of(all.take(k + 1)) == plugin_files_of(all.take(k as int)).push(x));
                let done = plugin_files_of(all.take(k as int));
                assert(before.to_multiset() == done.to_multiset());
                assert(after.to_multiset() == before.to_multiset().insert(x));
                vstd::seq_lib::to_multiset_build(done, x);
                assert(after.to_multiset() == plugin_files_of(all.take(k + 1)).to_multiset());
            }
        } else {
            assert(plugin_files_of(all.take(k + 1)) == plugin_files_of(all.take(k as int)));
        }
        k = k + 1;
    }
    proof {
        assert(all.take(k as int) =~= all);
        let wanted = plugin_files_of(all);
        wanted.lemma_sort_by_ensures(le);
        vstd::seq_lib::lemma_sorted_unique(texts(files@), wanted.sort_by(le), le);
    }
    files
}

/// The name of the plugin in file `file_name`: the file name without its
/// `.wasm`.
pub fn plugin_name(file_name: &str) -> (name: String)
    requires
        is_plugin_file(file_name@),
    ensures
        name@ == file_name@.take(file_name@.len() - 5),
{
    let chars = chars_of(file_name);
    string_from_chars(&chars[0..chars.len() - 5])
}

/// The file of the plugin called `name`: the name, then `.wasm`.
pub fn plugin_file_name(name: &str) -> (file_name: String)
    ensures
        file_name@ == name@ + ".wasm"@,
{
    let mut file_name = String::new();
    append(&mut file_name, name);
    append(&mut file_name, ".wasm");
    file_name
}

/// A plugin with a name is found again by that name: its file is a
/// plugin file, and the name read back from the file is the name.
pub proof fn lemma_plugin_name_round_trip(name: Seq<char>)
    requires
        name.len() > 0,
    ensures
        is_plugin_file(name + ".wasm"@),
        (name + ".wasm"@).take((name + ".wasm"@).len() - 5) == name,
{
    reveal_strlit(".wasm");
    let file = name + ".wasm"@;
    assert(file.skip(file.len() - 5) =~= ".wasm"@);
    assert(file.take(file.len() - 5) =~= name);
}

/// Where the host stands while it offers an input to the plugins of its
/// pipeline, one after another: once a plugin consumed the input, the
/// plugins after it are not offered it.
pub struct InputDispatch {
    /// A plugin consumed the input.
    pub blocked: bool,
}

/// What happens to the plugins of a pipeline offered an input, given
/// what each would answer: true or false for whether it consumed the input,
/// none for a crash. Each entry says whether the plugin stays: a plugin
/// that crashed is dropped; after the first plugin that consumed the
/// input, the others are not offered it and stay.
pub open spec fn input_outcome(answers: Seq<Option<bool>>) -> Seq<bool>
    decreases answers.len(),
{
    if answers.len() == 0 {
        Seq::empty()
    } else if answers[0] == Some(true) {
        seq![true] + Seq::new((answers.len() - 1) as nat, |k: int| true)
    } else {
        seq![answers[0] is Some] + input_outcome(answers.drop_first())
    }
}

impl InputDispatch {
    /// No plugin has consumed the input yet.
    pub fn new() -> (dispatch: InputDispatch)
        ensures
            !dispatch.blocked,
    {
        InputDispatch { blocked: false }
    }

    /// The next plugin is offered the input.
    pub fn offers(&self) -> (offer: bool)
        ensures
            offer == !self.blocked,
    {
        !self.blocked
    }

    /// Takes the answer of the plugin that was offered the input: whether it
    /// consumed it, or none when it crashed; returns whether the plugin
    /// stays in the pipeline.
    pub fn answer(&mut self, answer: Option<bool>) -> (keep: bool)
        requires
            !old(self).blocked,
        ensures
            keep == (answer is Some),
            final(self).blocked == (answer == Some(true)),
    {
        match answer {
            Some(consumed) => {
                self.blocked = consumed;
                true
            },
            None => false,
        }
    }
}

/// Which plugins of a pipeline stay once an input went round it, given
/// what each one would answer; only the plugins that the dispatch offers
/// the input to are asked (see `input_outcome`).
pub fn dispatch_input(answers: &Vec<Option<bool>>) -> (keep: Vec<bool>)
    ensures
        keep@ == input_outcome(answers@),
{
    let mut dispatch = InputDispatch::new();
    let mut keep: Vec<bool> = Vec::new();
    let mut k: usize = 0;
    assert(answers@.skip(0) =~= answers@);
    assert(keep@ + input_outcome(answers@.skip(0)) =~= input_outcome(answers@));
    while k < answers.len()
        invariant
            k <= answers@.len(),
            keep@.len() == k,
            !dispatch.blocked ==> keep@ + input_outcome(answers@.skip(k as int)) == input_outcome(answers@),
            dispatch.blocked ==> keep@ + Seq::new((answers@.len() - k) as nat, |j: int| true) == input_outcome(
                answers@,
            ),
        decreases answers@.len() - k,
    {
        let ghost rest = answers@.skip(k as int);
        let ghost before = keep@;
        let ghost was_blocked = dispatch.blocked;
        assert(rest.drop_first() =~= answers@.skip(k + 1));
        if dispatch.offers() {
            let stays = dispatch.answer(answers[k]);
            keep.push(stays);
            proof {
                if answers@[k as int] == Some(true) {
                    assert(input_outcome(rest) == seq![true] + Seq::new((rest.len() - 1) as nat, |j: int| true));
                    assert(keep@ + Seq::new((answers@.len() - (k + 1)) as nat, |j: int| true) =~= before
                        + input_outcome(rest));
                } else {
                    assert(keep@ + input_outcome(answers@.skip(k + 1)) =~= before + input_outcome(rest));
                }
            }
        } else {
            keep.push(true);
            proof {
                assert(keep@ + Seq::new((answers@.len() - (k + 1)) as nat, |j: int| true) =~= before + Seq::new(
                    (answers@.len() - k) as nat,
                    |j: int| true,
                ));
            }
        }
        k = k + 1;
    }
    proof {
        if !dispatch.blocked {
            assert(answers@.skip(k as int) =~= Seq::<Option<bool>>::empty());
            assert(keep@ + input_outcome(answers@.skip(k as int)) =~= keep@);
        } else {
            assert(keep@ + Seq::new((answers@.len() - k) as nat, |j: int| true) =~= keep@);
        }
    }
    keep
}

/// A sorted sequence with `x` put after what comes before it and before
/// what comes after it stays sorted.
proof fn lemma_insert_sorted<A>(before: Seq<A>, p: int, x: A, le: spec_fn(A, A) -> bool)
    requires
        total_ordering(le),
        sorted_by(before, le),
        0 <= p <= before.len(),
        forall|i: int| 0 <= i < p ==> #[trigger] le(before[i], x),
        p < before.len() ==> le(x, before[p]),
    ensures
        sorted_by(before.insert(p, x), le),
{
    let after = before.insert(p, x);
    assert forall|i: int, j: int| 0 <= i < j < after.len() implies #[trigger] le(after[i], after[j]) by {
        if j < p {
            assert(le(before[i], before[j]));
        } else if j == p {
            assert(le(before[i], x));
        } else if i < p {
            assert(le(before[i], before[j - 1]));
        } else if i == p {
            if p < j - 1 {
                assert(le(before[p], before[j - 1]));
                assert(le(x, before[j - 1]));
            }
        } else {
            assert(le(before[i - 1], before[j - 1]));
        }
    }
}

/// Plugins ordered by name, and among equal names by position.
pub open spec fn entry_le(a: (Seq<char>, int), b: (Seq<char>, int)) -> bool {
    if a.0 == b.0 {
        a.1 <= b.1
    } else {
        text_le(a.0, b.0)
    }
}

/// The order of plugins by name, then by position.
pub open spec fn entry_order() -> spec_fn((Seq<char>, int), (Seq<char>, int)) -> bool {
    |a: (Seq<char>, int), b: (Seq<char>, int)| entry_le(a, b)
}

/// Plugins by name, then by position, form a total order.
proof fn lemma_entry_order_total()
    ensures
        total_ordering(entry_order()),
{
    let le = entry_order();
    assert forall|a: (Seq<char>, int)| #[trigger] le(a, a) by {}
    assert forall|a: (Seq<char>, int), b: (Seq<char>, int)| #[trigger] le(a, b) && #[trigger] le(b, a) implies a == b by {
        if a.0 != b.0 {
            lemma_text_le_antisymmetric(a.0, b.0);
        }
    }
    assert forall|a: (Seq<char>, int), b: (Seq<char>, int), c: (Seq<char>, int)|
        #[trigger] le(a, b) && #[trigger] le(b, c) implies le(a, c) by {
        if a.0 != b.0 && b.0 != c.0 {
            lemma_text_le_transitive(a.0, b.0, c.0);
            if a.0 == c.0 {
                lemma_text_le_antisymmetric(a.0, b.0);
            }
        }
    }
    assert forall|a: (Seq<char>, int), b: (Seq<char>, int)| #[trigger] le(a, b) || #[trigger] le(b, a) by {
        lemma_text_le_total(a.0, b.0);
    }
}

/// The plugins of a pipeline called `names` that stay when plugin `name`
/// is reloaded, each with its position.
pub open spec fn kept_entries(names: Seq<Seq<char>>, name: Seq<char>) -> Seq<(Seq<char>, int)>
    decreases names.len(),
{
    if names.len() == 0 {
        Seq::empty()
    } else {
        let rest = kept_entries(names.drop_last(), name);
        if names.last() != name {
            rest.push((names.last(), names.len() - 1))
        } else {
            rest
        }
    }
}

/// The plugins of the pipeline once plugin `name` is reloaded, each with
/// its position: those of other names, then the reloaded one, at position
/// `names.len()`, when it loaded.
pub open spec fn reload_entries(names: Seq<Seq<char>>, name: Seq<char>, loaded: bool) -> Seq<(Seq<char>, int)> {
    kept_entries(names, name) + if loaded {
        seq![(name, names.len() as int)]
    } else {
        Seq::empty()
    }
}

/// The positions of `entries`.
pub open spec fn entry_positions(entries: Seq<(Seq<char>, int)>) -> Seq<int> {
    entries.map_values(|e: (Seq<char>, int)| e.1)
}

/// The name at position `i` of a pipeline called `names` to which plugin
/// `name` comes last.
fn name_at<'a>(names: &'a Vec<String>, name: &'a str, i: usize) -> (at: &'a str)
    requires
        i <= names@.len(),
    ensures
        at@ == texts(names@).push(name@)[i as int],
{
    if i < names.len() {
        names[i].as_str()
    } else {
        name
    }
}

/// The positions of the plugins of the pipeline called `names` whose name
/// is not `name`, in order.
fn kept_positions(names: &Vec<String>, name: &str) -> (kept: Vec<usize>)
    ensures
        kept@.map_values(|i: usize| i as int) == entry_positions(kept_entries(texts(names@), name@)),
{
    let ghost all = texts(names@);
    let mut kept: Vec<usize> = Vec::new();
    let mut k: usize = 0;
    proof {
        assert(kept@.map_values(|i: usize| i as int) =~= entry_positions(kept_entries(all.take(0), name@)));
    }
    while k < names.len()
        invariant
            k <= names@.len(),
            all == texts(names@),
            kept@.map_values(|i: usize| i as int) == entry_positions(kept_entries(all.take(k as int), name@)),
        decreases names@.len() - k,
    {
        assert(all.take(k + 1).drop_last() =~= all.take(k as int));
        assert(all.take(k + 1).last() == all[k as int]);
        assert(names@[k as int]@ == all[k as int]);
        let ghost prev = kept_entries(all.take(k as int), name@);
        let ghost before = kept@;
        if !same_text(names[k].as_str(), name) {
            kept.push(k);
            proof {
                assert(kept_entries(all.take(k + 1), name@) == prev.push((all[k as int], k as int)));
                assert(entry_positions(prev.push((all[k as int], k as int))) =~= entry_positions(prev).push(k as int));
                assert(kept@.map_values(|i: usize| i as int) =~= before.map_values(|i: usize| i as int).push(k as int));
            }
        } else {
            assert(kept_entries(all.take(k + 1), name@) == prev);
        }
        k = k + 1;
    }
    assert(all.take(k as int) =~= all);
    kept
}

/// The pipeline once plugin `name` is reloaded, as positions in the
/// pipeline called `names`, `names.len()` standing for the reloaded
/// plugin: the plugins of other names stay. When the reloaded plugin
/// loaded, it joins and all are ordered by name, keeping their order among
/// equal names (see `reload_entries`); when it did not, the others keep
/// their order.
pub fn reload_order(names: &Vec<String>, name: &str, loaded: bool) -> (order: Vec<usize>)
    requires
        names@.len() < usize::MAX,
    ensures
        order@.map_values(|i: usize| i as int) == if loaded {
            entry_positions(reload_entries(texts(names@), name@, loaded).sort_by(entry_order()))
        } else {
            entry_positions(kept_entries(texts(names@), name@))
        },
{
    if !loaded {
        return kept_positions(names, name);
    }
    broadcast use vstd::seq_lib::group_to_multiset_ensures;

    let ghost all = texts(names@);
    let ghost ext = all.push(name@);
    let ghost le = entry_order();
    proof {
        lemma_entry_order_total();
    }
    let n = names.len();
    let last = if loaded {
        n + 1
    } else {
        n
    };
    let mut order: Vec<usize> = Vec::new();
    let ghost mut es: Seq<(Seq<char>, int)> = Seq::empty();
    let mut k: usize = 0;
    while k < last
        invariant
            n == names@.len(),
            n < usize::MAX,
            last == if loaded { n + 1 } else { n as int },
            k <= last,
            all == texts(names@),
            ext == all.push(name@),
            le == entry_order(),
            total_ordering(le),
            sorted_by(es, le),
            order@.len() == es.len(),
            forall|j: int| 0 <= j < es.len() ==> #[trigger] es[j] == (ext[order@[j] as int], order@[j] as int),
            forall|j: int| 0 <= j < es.len() ==> #[trigger] order@[j] < k,
            k <= n ==> es.to_multiset() == kept_entries(all.take(k as int), name@).to_multiset(),
            k == n + 1 ==> es.to_multiset() == reload_entries(all, name@, loaded).to_multiset(),
        decreases last - k,
    {
        let key = name_at(names, name, k);
        proof {
            if k < n {
                assert(all.take(k + 1).drop_last() =~= all.take(k as int));
                assert(all.take(k + 1).last() == all[k as int]);
            }
        }
        if k == n || !same_text(key, name) {
            let ghost x = (ext[k as int], k as int);
            let ghost before = es;
            let mut p: usize = 0;
            while p < order.len() && text_at_most(name_at(names, name, order[p]), key)
                invariant
                    p <= order@.len(),
                    order@.len() == before.len(),
                    n == names@.len(),
                    k <= n,
                    ext == texts(names@).push(name@),
                    le == entry_order(),
                    key@ == ext[k as int],
                    x == (ext[k as int], k as int),
                    forall|j: int| 0 <= j < before.len() ==> #[trigger] before[j] == (ext[order@[j] as int], order@[j] as int),
                    forall|j: int| 0 <= j < before.len() ==> #[trigger] order@[j] < k,
                    forall|i: int| 0 <= i < p ==> #[trigger] le(before[i], x),
                decreases order@.len() - p,
            {
                proof {
                    let e = before[p as int];
                    if e.0 == x.0 {
                        assert(e.1 < x.1);
                    }
                }
                p = p + 1;
            }
            proof {
                if p < order@.len() {
                    let e = before[p as int];
                    lemma_text_le_reflexive(x.0);
                    lemma_text_le_total(e.0, x.0);
                    assert(e.0 != x.0);
                    assert(le(x, e));
                }
                lemma_insert_sorted(before, p as int, x, le);
            }
            order.insert(p, k);
            proof {
                es = before.insert(p as int, x);
                assert forall|j: int| 0 <= j < es.len() implies #[trigger] es[j] == (ext[order@[j] as int], order@[j] as int) by {
                    if j < p {
                        assert(es[j] == before[j]);
                    } else if j > p {
                        assert(es[j] == before[j - 1]);
                    }
                }
                vstd::seq_lib::to_multiset_insert(before, p as int, x);
                if k < n {
                    let done = kept_entries(all.take(k as int), name@);
                    assert(kept_entries(all.take(k + 1), name@) == done.push(x));
                    vstd::seq_lib::to_multiset_build(done, x);
                } else {
                    assert(all.take(n as int) =~= all);
                    let kept = kept_entries(all, name@);
                    assert(reload_entries(all, name@, loaded) == kept + seq![x]);
                    assert(kept + seq![x] =~= kept.push(x));
                    vstd::seq_lib::to_multiset_build(kept, x);
                }
            }
        } else {
            proof {
                assert(kept_entries(all.take(k + 1), name@) == kept_entries(all.take(k as int), name@));
            }
        }
        k = k + 1;
    }
    proof {
        if !loaded {
            assert(all.take(n as int) =~= all);
            assert(reload_entries(all, name@, loaded) =~= kept_entries(all, name@));
        }
        let wanted = reload_entries(all, name@, loaded);
        wanted.lemma_sort_by_ensures(le);
        assert(es.to_multiset() == wanted.to_multiset());
        vstd::seq_lib::lemma_sorted_unique(es, wanted.sort_by(le), le);
        assert(order@.map_values(|i: usize| i as int) =~= entry_positions(es));
    }
    order
}

} // verus!

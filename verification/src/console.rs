//! The plugin console: text with ANSI color codes cut into colored
//! segments, and the answers of the host to the console's commands.
use colored::Colorize;
use vstd::prelude::*;

use crate::config::texts;
use crate::text::{append, chars_of, same_text, string_from_chars};

verus! {

/// A color, with its opacity.
#[derive(Clone, Copy, Debug, PartialEq, Eq, Structural)]
pub struct Color {
    pub r: u8,
    pub g: u8,
    pub b: u8,
    pub a: u8,
}

/// A run of text in one color.
pub struct TextSegment {
    pub text: String,
    pub color: Color,
}

/// The text and color of a segment.
pub open spec fn segment_view(segment: TextSegment) -> (Seq<char>, Color) {
    (segment.text@, segment.color)
}

/// The color of text before any code, and after a reset.
pub open spec fn default_color() -> Color {
    Color { r: 220, g: 220, b: 225, a: 255 }
}

/// The opaque color (`r`, `g`, `b`).
pub open spec fn opaque(r: u8, g: u8, b: u8) -> Color {
    Color { r, g, b, a: 255 }
}

/// `code` is one of the four codes of color `n` (0 black to 6 cyan):
/// `3n`, `9n`, `1;3n` and `1;9n`.
pub open spec fn is_code_of(code: Seq<char>, n: char) -> bool {
    ||| code == seq!['3', n]
    ||| code == seq!['9', n]
    ||| code == seq!['1', ';', '3', n]
    ||| code == seq!['1', ';', '9', n]
}

/// The color that the code `code` of an escape sequence `ESC [ code m`
/// selects; a reset or an unknown code selects the default color.
pub open spec fn code_color(code: Seq<char>) -> Color {
    if is_code_of(code, '0') {
        opaque(100, 100, 100)
    } else if is_code_of(code, '1') {
        opaque(255, 80, 80)
    } else if is_code_of(code, '2') {
        opaque(100, 255, 100)
    } else if is_code_of(code, '3') {
        opaque(255, 255, 100)
    } else if is_code_of(code, '4') {
        opaque(100, 150, 255)
    } else if is_code_of(code, '5') {
        opaque(255, 100, 255)
    } else if is_code_of(code, '6') {
        opaque(100, 255, 255)
    } else {
        default_color()
    }
}

/// Where the code starting at `j` ends: at the first `m`, or at the end.
pub open spec fn code_end(chars: Seq<char>, j: int) -> int
    decreases chars.len() - j,
{
    if j < 0 || j >= chars.len() || chars[j] == 'm' {
        j
    } else {
        code_end(chars, j + 1)
    }
}

/// The code ends within the text, after it starts.
pub proof fn lemma_code_end(chars: Seq<char>, j: int)
    requires
        0 <= j <= chars.len(),
    ensures
        j <= code_end(chars, j) <= chars.len(),
        code_end(chars, j) < chars.len() ==> chars[code_end(chars, j)] == 'm',
        forall|k: int| j <= k < code_end(chars, j) ==> chars[k] != 'm',
    decreases chars.len() - j,
{
    if j < chars.len() && chars[j] != 'm' {
        lemma_code_end(chars, j + 1);
    }
}

/// `segments` with the pending `text` in `color` added, unless it is
/// empty.
pub open spec fn flushed(segments: Seq<(Seq<char>, Color)>, text: Seq<char>, color: Color) -> Seq<(Seq<char>, Color)> {
    if text.len() == 0 {
        segments
    } else {
        segments.push((text, color))
    }
}

/// The segments of `chars` from `i` on, `segments` being those already
/// cut and `text` the pending text in `color`: an escape character followed
/// by `[` starts a code running to the next `m`, which ends the pending
/// text and selects a color; every other character is text.
pub open spec fn ansi_segments(
    chars: Seq<char>,
    i: int,
    segments: Seq<(Seq<char>, Color)>,
    text: Seq<char>,
    color: Color,
) -> Seq<(Seq<char>, Color)>
    decreases chars.len() - i,
{
    if i < 0 || i >= chars.len() {
        flushed(segments, text, color)
    } else if chars[i] == '\x1b' && i + 1 < chars.len() && chars[i + 1] == '[' {
        let end = code_end(chars, i + 2);
        proof {
            lemma_code_end(chars, i + 2);
        }
        let next = if end < chars.len() {
            end + 1
        } else {
            end
        };
        ansi_segments(
            chars,
            next,
            flushed(segments, text, color),
            Seq::empty(),
            code_color(chars.subrange(i + 2, end)),
        )
    } else {
        ansi_segments(chars, i + 1, segments, text.push(chars[i]), color)
    }
}

/// `code` is one of the four codes of color `n`.
fn code_of(code: &Vec<char>, n: char) -> (matches: bool)
    ensures
        matches == is_code_of(code@, n),
{
    let c = code;
    let short = c.len() == 2 && (c[0] == '3' || c[0] == '9') && c[1] == n;
    let long = c.len() == 4 && c[0] == '1' && c[1] == ';' && (c[2] == '3' || c[2] == '9') && c[3] == n;
    proof {
        if c@.len() == 2 {
            assert(c@ == seq![c@[0], c@[1]]);
        }
        if c@.len() == 4 {
            assert(c@ == seq![c@[0], c@[1], c@[2], c@[3]]);
        }
    }
    short || long
}

/// The color selected by `code`.
fn color_of_code(code: &Vec<char>) -> (color: Color)
    ensures
        color == code_color(code@),
{
    if code_of(code, '0') {
        Color { r: 100, g: 100, b: 100, a: 255 }
    } else if code_of(code, '1') {
        Color { r: 255, g: 80, b: 80, a: 255 }
    } else if code_of(code, '2') {
        Color { r: 100, g: 255, b: 100, a: 255 }
    } else if code_of(code, '3') {
        Color { r: 255, g: 255, b: 100, a: 255 }
    } else if code_of(code, '4') {
        Color { r: 100, g: 150, b: 255, a: 255 }
    } else if code_of(code, '5') {
        Color { r: 255, g: 100, b: 255, a: 255 }
    } else if code_of(code, '6') {
        Color { r: 100, g: 255, b: 255, a: 255 }
    } else {
        Color { r: 220, g: 220, b: 225, a: 255 }
    }
}

/// Ends the pending text: adds it to `segments` in `color` unless it is
/// empty, and empties it.
fn flush(segments: &mut Vec<TextSegment>, text: &mut Vec<char>, color: Color)
    ensures
        final(segments)@.map_values(|s: TextSegment| segment_view(s)) == flushed(
            old(segments)@.map_values(|s: TextSegment| segment_view(s)),
            old(text)@,
            color,
        ),
        final(text)@.len() == 0,
{
    if text.len() > 0 {
        let segment = TextSegment { text: string_from_chars(text.as_slice()), color };
        segments.push(segment);
        assert(segments@.map_values(|s: TextSegment| segment_view(s)) =~= old(segments)@.map_values(
            |s: TextSegment| segment_view(s),
        ).push((old(text)@, color)));
        text.clear();
    }
}

/// The colored segments of `input`: its text with the color codes taken
/// out, cut where a code changes the color (see `ansi_segments`).
pub fn parse_ansi_colors(input: &str) -> (segments: Vec<TextSegment>)
    ensures
        segments_text(segments@.map_values(|s: TextSegment| segment_view(s))) == stripped_from(input@, 0),
        segments@.map_values(|s: TextSegment| segment_view(s)) == ansi_segments(
            input@,
            0,
            Seq::empty(),
            Seq::empty(),
            default_color(),
        ),
{
    let chars = chars_of(input);
    let mut segments: Vec<TextSegment> = Vec::new();
    let mut text: Vec<char> = Vec::new();
    let mut color = Color { r: 220, g: 220, b: 225, a: 255 };
    let mut i: usize = 0;
    proof {
        assert(segments@.map_values(|s: TextSegment| segment_view(s)) =~= Seq::<(Seq<char>, Color)>::empty());
    }
    while i < chars.len()
        invariant
            i <= chars@.len(),
            chars@ == input@,
            ansi_segments(input@, 0, Seq::empty(), Seq::empty(), default_color()) == ansi_segments(
                input@,
                i as int,
                segments@.map_values(|s: TextSegment| segment_view(s)),
                text@,
                color,
            ),
        decreases chars@.len() - i,
    {
        if chars[i] == '\x1b' && i + 1 < chars.len() && chars[i + 1] == '[' {
            let mut code: Vec<char> = Vec::new();
            let mut j = i + 2;
            proof {
                lemma_code_end(chars@, i + 2);
            }
            while j < chars.len() && chars[j] != 'm'
                invariant
                    i + 2 <= j <= chars@.len(),
                    code_end(chars@, i + 2) == code_end(chars@, j as int),
                    code@ == chars@.subrange(i + 2, j as int),
                decreases chars@.len() - j,
            {
                code.push(chars[j]);
                assert(code@ =~= chars@.subrange(i + 2, j + 1));
                j = j + 1;
            }
            flush(&mut segments, &mut text, color);
            color = color_of_code(&code);
            proof {
                assert(text@ =~= Seq::<char>::empty());
            }
            i = if j < chars.len() {
                j + 1
            } else {
                j
            };
        } else {
            text.push(chars[i]);
            i = i + 1;
        }
    }
    flush(&mut segments, &mut text, color);
    proof {
        lemma_colors_keep_text(input@);
    }
    segments
}


/// The text of `segments`, in order, without colors.
pub open spec fn segments_text(segments: Seq<(Seq<char>, Color)>) -> Seq<char>
    decreases segments.len(),
{
    if segments.len() == 0 {
        Seq::empty()
    } else {
        segments_text(segments.drop_last()) + segments.last().0
    }
}

/// The text of `chars` from `i` on with its color codes taken out.
pub open spec fn stripped_from(chars: Seq<char>, i: int) -> Seq<char>
    decreases chars.len() - i,
{
    if i < 0 || i >= chars.len() {
        Seq::empty()
    } else if chars[i] == '\x1b' && i + 1 < chars.len() && chars[i + 1] == '[' {
        let end = code_end(chars, i + 2);
        proof {
            lemma_code_end(chars, i + 2);
        }
        stripped_from(chars, if end < chars.len() { end + 1 } else { end })
    } else {
        seq![chars[i]] + stripped_from(chars, i + 1)
    }
}

/// Cutting text into segments loses nothing but the color codes.
pub proof fn lemma_segments_text(
    chars: Seq<char>,
    i: int,
    segments: Seq<(Seq<char>, Color)>,
    text: Seq<char>,
    color: Color,
)
    requires
        0 <= i,
    ensures
        segments_text(ansi_segments(chars, i, segments, text, color)) == segments_text(segments) + text
            + stripped_from(chars, i),
    decreases chars.len() - i,
{
    if i >= chars.len() {
        if text.len() > 0 {
            assert(segments.push((text, color)).drop_last() =~= segments);
        }
        assert(segments_text(segments) + text + Seq::<char>::empty() =~= segments_text(segments) + text);
    } else if chars[i] == '\x1b' && i + 1 < chars.len() && chars[i + 1] == '[' {
        let end = code_end(chars, i + 2);
        lemma_code_end(chars, i + 2);
        let next = if end < chars.len() { end + 1 } else { end };
        let flushed_segments = flushed(segments, text, color);
        lemma_segments_text(chars, next, flushed_segments, Seq::empty(), code_color(chars.subrange(i + 2, end)));
        if text.len() > 0 {
            assert(segments.push((text, color)).drop_last() =~= segments);
        } else {
            assert(segments_text(segments) + text =~= segments_text(segments));
        }
        assert(segments_text(flushed_segments) + Seq::<char>::empty() =~= segments_text(flushed_segments));
    } else {
        lemma_segments_text(chars, i + 1, segments, text.push(chars[i]), color);
        assert(segments_text(segments) + text.push(chars[i]) + stripped_from(chars, i + 1) =~= segments_text(segments)
            + text + (seq![chars[i]] + stripped_from(chars, i + 1)));
    }
}

/// `t` holds an escape character.
pub open spec fn has_escape(t: Seq<char>) -> bool {
    exists|k: int| 0 <= k < t.len() && t[k] == '\x1b'
}

/// Text without escape characters has no color code to take out.
proof fn lemma_stripped_plain(chars: Seq<char>, i: int)
    requires
        0 <= i <= chars.len(),
        !has_escape(chars),
    ensures
        stripped_from(chars, i) == chars.skip(i),
    decreases chars.len() - i,
{
    if i < chars.len() {
        assert(chars[i] != '\x1b');
        lemma_stripped_plain(chars, i + 1);
        assert(seq![chars[i]] + chars.skip(i + 1) =~= chars.skip(i));
    } else {
        assert(chars.skip(i) =~= Seq::<char>::empty());
    }
}

/// Cutting a text into colored segments keeps all of it but its color
/// codes, in order; a text without escape characters is kept whole.
pub proof fn lemma_colors_keep_text(input: Seq<char>)
    ensures
        segments_text(ansi_segments(input, 0, Seq::empty(), Seq::empty(), default_color())) == stripped_from(
            input,
            0,
        ),
        !has_escape(input) ==> segments_text(
            ansi_segments(input, 0, Seq::empty(), Seq::empty(), default_color()),
        ) == input,
{
    lemma_segments_text(input, 0, Seq::empty(), Seq::empty(), default_color());
    assert(segments_text(Seq::<(Seq<char>, Color)>::empty()) + Seq::<char>::empty() + stripped_from(input, 0)
        =~= stripped_from(input, 0));
    if !has_escape(input) {
        lemma_stripped_plain(input, 0);
        assert(input.skip(0) =~= input);
    }
}

/// `t` between the escape sequence of `code` and a reset.
pub open spec fn wrapped(code: Seq<char>, t: Seq<char>) -> Seq<char> {
    seq!['\x1b', '['] + code + seq!['m'] + t + seq!['\x1b', '[', '0', 'm']
}

/// `w` shows `t` in the color of `code`, or plain when coloring is off.
pub open spec fn painted_with(w: Seq<char>, code: Seq<char>, t: Seq<char>) -> bool {
    w == t || w == wrapped(code, t)
}

/// `w` shows the text `t`, plain or in some color.
pub open spec fn piece(w: Seq<char>, t: Seq<char>) -> bool {
    &&& !has_escape(t)
    &&& (w == t || exists|code: Seq<char>|
        #![trigger wrapped(code, t)]
        (forall|k: int| 0 <= k < code.len() ==> #[trigger] code[k] != 'm') && w == wrapped(code, t))
}

/// The code starting at `j` runs over the `n` characters that are not `m`
/// up to an `m`.
proof fn lemma_code_end_at(chars: Seq<char>, j: int, n: int)
    requires
        0 <= j,
        0 <= n,
        j + n < chars.len(),
        forall|k: int| j <= k < j + n ==> chars[k] != 'm',
        chars[j + n] == 'm',
    ensures
        code_end(chars, j) == j + n,
    decreases n,
{
    if n > 0 {
        lemma_code_end_at(chars, j + 1, n - 1);
    }
}

/// Text without escape characters comes out of a scan as it is.
proof fn lemma_plain_run(chars: Seq<char>, k: int, n: int)
    requires
        0 <= k,
        0 <= n,
        k + n <= chars.len(),
        forall|m: int| k <= m < k + n ==> chars[m] != '\x1b',
    ensures
        stripped_from(chars, k) == chars.subrange(k, k + n) + stripped_from(chars, k + n),
    decreases n,
{
    if n > 0 {
        lemma_plain_run(chars, k + 1, n - 1);
        assert(chars.subrange(k, k + n) =~= seq![chars[k]] + chars.subrange(k + 1, k + n));
    } else {
        assert(chars.subrange(k, k) =~= Seq::<char>::empty());
    }
}

/// A piece standing at `k` comes out of a scan as its text.
proof fn lemma_piece(chars: Seq<char>, k: int, w: Seq<char>, t: Seq<char>)
    requires
        0 <= k,
        k + w.len() <= chars.len(),
        chars.subrange(k, k + w.len()) == w,
        piece(w, t),
    ensures
        stripped_from(chars, k) == t + stripped_from(chars, k + w.len()),
{
    if w == t {
        assert forall|m: int| k <= m < k + t.len() implies chars[m] != '\x1b' by {
            assert(chars[m] == w[m - k]);
        }
        lemma_plain_run(chars, k, t.len() as int);
    } else {
        let code = choose|code: Seq<char>| (forall|q: int| 0 <= q < code.len() ==> #[trigger] code[q] != 'm') && w
            == wrapped(code, t);
        let c = code.len() as int;
        let n = t.len() as int;
        assert(w.len() == c + n + 7);
        assert(chars[k] == '\x1b' && chars[k + 1] == '[') by {
            assert(chars[k] == w[0]);
            assert(chars[k + 1] == w[1]);
        }
        assert forall|q: int| k + 2 <= q < k + 2 + c implies chars[q] != 'm' by {
            assert(chars[q] == w[q - k]);
            assert(w[q - k] == code[q - k - 2]);
        }
        assert(chars[k + 2 + c] == 'm') by {
            assert(chars[k + 2 + c] == w[2 + c]);
        }
        lemma_code_end_at(chars, k + 2, c);
        assert forall|q: int| k + 3 + c <= q < k + 3 + c + n implies chars[q] != '\x1b' by {
            assert(chars[q] == w[q - k]);
            assert(w[q - k] == t[q - k - 3 - c]);
        }
        lemma_plain_run(chars, k + 3 + c, n);
        assert(chars.subrange(k + 3 + c, k + 3 + c + n) =~= t) by {
            assert forall|q: int| 0 <= q < n implies chars.subrange(k + 3 + c, k + 3 + c + n)[q] == t[q] by {
                assert(chars[k + 3 + c + q] == w[3 + c + q]);
            }
        }
        let r = k + 3 + c + n;
        assert(chars[r] == '\x1b' && chars[r + 1] == '[' && chars[r + 2] == '0' && chars[r + 3] == 'm') by {
            assert(chars[r] == w[r - k]);
            assert(chars[r + 1] == w[r + 1 - k]);
            assert(chars[r + 2] == w[r + 2 - k]);
            assert(chars[r + 3] == w[r + 3 - k]);
        }
        lemma_code_end_at(chars, r + 2, 1);
    }
}

/// All of `ws`, in order.
pub open spec fn joined(ws: Seq<Seq<char>>) -> Seq<char>
    decreases ws.len(),
{
    if ws.len() == 0 {
        Seq::empty()
    } else {
        joined(ws.drop_last()) + ws.last()
    }
}

/// Pieces one after another come out of a scan as their texts one after
/// another.
proof fn lemma_pieces(chars: Seq<char>, k: int, ws: Seq<Seq<char>>, ts: Seq<Seq<char>>)
    requires
        0 <= k <= chars.len(),
        ws.len() == ts.len(),
        forall|q: int| 0 <= q < ws.len() ==> #[trigger] piece(ws[q], ts[q]),
        chars.subrange(k, chars.len() as int) == joined(ws),
    ensures
        stripped_from(chars, k) == joined(ts),
    decreases ws.len(),
{
    if ws.len() == 0 {
        assert(stripped_from(chars, k) == Seq::<char>::empty());
    } else {
        let first = ws[0];
        let rest_w = ws.drop_first();
        let rest_t = ts.drop_first();
        lemma_joined_front(ws);
        lemma_joined_front(ts);
        assert(joined(ws).len() == first.len() + joined(rest_w).len());
        assert(k + first.len() <= chars.len());
        assert(chars.subrange(k, k + first.len()) =~= first) by {
            assert forall|q: int| 0 <= q < first.len() implies chars.subrange(k, k + first.len())[q] == first[q] by {
                assert(chars.subrange(k, chars.len() as int)[q] == joined(ws)[q]);
                assert(joined(ws)[q] == (first + joined(rest_w))[q]);
            }
        }
        assert(piece(ws[0], ts[0]));
        lemma_piece(chars, k, first, ts[0]);
        assert forall|q: int| 0 <= q < rest_w.len() implies #[trigger] piece(rest_w[q], rest_t[q]) by {
            assert(piece(ws[q + 1], ts[q + 1]));
        }
        assert(chars.subrange(k + first.len(), chars.len() as int) =~= joined(rest_w)) by {
            assert forall|q: int| 0 <= q < joined(rest_w).len() implies chars.subrange(k + first.len(), chars.len() as int)[q]
                == joined(rest_w)[q] by {
                assert(chars.subrange(k, chars.len() as int)[first.len() + q] == joined(ws)[first.len() + q]);
                assert(joined(ws)[first.len() + q] == (first + joined(rest_w))[first.len() + q]);
            }
        }
        lemma_pieces(chars, k + first.len(), rest_w, rest_t);
    }
}

/// Joining puts the first one first.
proof fn lemma_joined_front(ws: Seq<Seq<char>>)
    requires
        ws.len() > 0,
    ensures
        joined(ws) == ws[0] + joined(ws.drop_first()),
    decreases ws.len(),
{
    if ws.len() == 1 {
        assert(ws.drop_first() =~= Seq::<Seq<char>>::empty());
        assert(ws.drop_last() =~= Seq::<Seq<char>>::empty());
        assert(Seq::<char>::empty() + ws[0] =~= ws[0] + Seq::<char>::empty());
    } else {
        lemma_joined_front(ws.drop_last());
        assert(ws.drop_last().drop_first() =~= ws.drop_first().drop_last());
        assert(ws.drop_first().last() == ws.last());
    }
}

/// A text of pieces cut into segments shows the pieces' texts.
proof fn lemma_pieces_segments(chars: Seq<char>, ws: Seq<Seq<char>>, ts: Seq<Seq<char>>)
    requires
        ws.len() == ts.len(),
        forall|q: int| 0 <= q < ws.len() ==> #[trigger] piece(ws[q], ts[q]),
        chars == joined(ws),
    ensures
        segments_text(ansi_segments(chars, 0, Seq::empty(), Seq::empty(), default_color())) == joined(ts),
{
    lemma_segments_text(chars, 0, Seq::empty(), Seq::empty(), default_color());
    assert(chars.subrange(0, chars.len() as int) =~= chars);
    lemma_pieces(chars, 0, ws, ts);
    assert(segments_text(Seq::<(Seq<char>, Color)>::empty()) + Seq::<char>::empty() + joined(ts) =~= joined(ts));
}

/// A painted text is a piece.
proof fn lemma_painted_piece(w: Seq<char>, code: Seq<char>, t: Seq<char>)
    requires
        painted_with(w, code, t),
        !has_escape(t),
        forall|k: int| 0 <= k < code.len() ==> #[trigger] code[k] != 'm',
    ensures
        piece(w, t),
{
    if w != t {
        assert(w == wrapped(code, t));
    }
}

/// `colored` paints `text` bright blue: shown plain when coloring is off,
/// else between the escape sequence of code 94 and a reset. Nothing is
/// stated for a text holding an escape character.
#[verifier::external_body]
fn bright_blue(text: &str) -> (painted: String)
    ensures
        !has_escape(text@) ==> painted_with(painted@, seq!['9', '4'], text@),
{
    text.bright_blue().to_string()
}

/// `colored` paints `text` bright black (code 90), as `bright_blue` does.
#[verifier::external_body]
fn bright_black(text: &str) -> (painted: String)
    ensures
        !has_escape(text@) ==> painted_with(painted@, seq!['9', '0'], text@),
{
    text.bright_black().to_string()
}

/// `colored` paints `text` cyan (code 36), as `bright_blue` does.
#[verifier::external_body]
fn cyan(text: &str) -> (painted: String)
    ensures
        !has_escape(text@) ==> painted_with(painted@, seq!['3', '6'], text@),
{
    text.cyan().to_string()
}

/// `colored` paints `text` yellow (code 33), as `bright_blue` does.
#[verifier::external_body]
fn yellow(text: &str) -> (painted: String)
    ensures
        !has_escape(text@) ==> painted_with(painted@, seq!['3', '3'], text@),
{
    text.yellow().to_string()
}

/// `colored` paints `text` green (code 32), as `bright_blue` does.
#[verifier::external_body]
fn green(text: &str) -> (painted: String)
    ensures
        !has_escape(text@) ==> painted_with(painted@, seq!['3', '2'], text@),
{
    text.green().to_string()
}

/// `colored` paints `text` blue (code 34), as `bright_blue` does.
#[verifier::external_body]
fn blue(text: &str) -> (painted: String)
    ensures
        !has_escape(text@) ==> painted_with(painted@, seq!['3', '4'], text@),
{
    text.blue().to_string()
}

/// `colored` paints `text` magenta (code 35), as `bright_blue` does.
#[verifier::external_body]
fn magenta(text: &str) -> (painted: String)
    ensures
        !has_escape(text@) ==> painted_with(painted@, seq!['3', '5'], text@),
{
    text.magenta().to_string()
}

/// `colored` paints `text` red and bold (code 1;31), as `bright_blue` does.
#[verifier::external_body]
fn red_bold(text: &str) -> (painted: String)
    ensures
        !has_escape(text@) ==> painted_with(painted@, seq!['1', ';', '3', '1'], text@),
{
    text.red().bold().to_string()
}

/// `colored` paints `text` bright magenta and bold (code 1;95), as
/// `bright_blue` does.
#[verifier::external_body]
fn bright_magenta_bold(text: &str) -> (painted: String)
    ensures
        !has_escape(text@) ==> painted_with(painted@, seq!['1', ';', '9', '5'], text@),
{
    text.bright_magenta().bold().to_string()
}



/// The texts and colors of `segments`, in order.
pub open spec fn segment_views(segments: Seq<TextSegment>) -> Seq<(Seq<char>, Color)> {
    segments.map_values(|s: TextSegment| segment_view(s))
}

/// The text of segments one after another is their texts one after
/// another.
proof fn lemma_segments_text_concat(a: Seq<(Seq<char>, Color)>, b: Seq<(Seq<char>, Color)>)
    ensures
        segments_text(a + b) == segments_text(a) + segments_text(b),
    decreases b.len(),
{
    if b.len() == 0 {
        assert(a + b =~= a);
        assert(segments_text(a) + Seq::<char>::empty() =~= segments_text(a));
    } else {
        lemma_segments_text_concat(a, b.drop_last());
        assert((a + b).drop_last() =~= a + b.drop_last());
    }
}

/// `t` followed by spaces up to `width` characters.
pub open spec fn pad_right(t: Seq<char>, width: nat) -> Seq<char> {
    if t.len() >= width {
        t
    } else {
        t + Seq::new((width - t.len()) as nat, |k: int| ' ')
    }
}

/// `text` followed by spaces up to `width` characters.
fn padded(text: &str, width: usize) -> (padded_text: String)
    ensures
        padded_text@ == pad_right(text@, width as nat),
{
    let mut result = String::new();
    append(&mut result, text);
    let count = chars_of(text).len();
    let mut k = count;
    while k < width
        invariant
            count == text@.len(),
            count <= k <= width || (count > width && k == count),
            result@ == text@ + Seq::new((k - count) as nat, |q: int| ' '),
        decreases width - k,
    {
        let ghost before = result@;
        append(&mut result, " ");
        proof {
            reveal_strlit(" ");
            assert(result@ =~= text@ + Seq::new((k + 1 - count) as nat, |q: int| ' '));
        }
        k = k + 1;
    }
    proof {
        if count >= width {
            assert(result@ =~= text@);
        }
    }
    result
}

/// What the host has for its plugins: their commands, the plugins to
/// reload, and the logs to pass on to them.
pub struct SharedEngineState {
    /// Each plugin command, as its name and its help.
    pub cached_commands: Vec<(String, String)>,
    /// Plugins to reload, by name; none for all of them.
    pub reload_queue: Vec<Option<String>>,
    /// Logs to pass on to every plugin.
    pub logs_to_broadcast: Vec<Vec<TextSegment>>,
}

/// The host side of a plugin.
pub struct HostState {
    pub shared: SharedEngineState,
}

/// The names and helps of `commands`.
pub open spec fn command_texts(commands: Seq<(String, String)>) -> Seq<(Seq<char>, Seq<char>)> {
    commands.map_values(|c: (String, String)| (c.0@, c.1@))
}

/// The plugins of `queue` as texts.
pub open spec fn queue_texts(queue: Seq<Option<String>>) -> Seq<Option<Seq<char>>> {
    queue.map_values(|entry: Option<String>| match entry {
        Some(name) => Some(name@),
        None => None,
    })
}

/// The help line of one plugin command.
pub open spec fn command_line_text(name: Seq<char>, help: Seq<char>) -> Seq<char> {
    ">>> "@ + pad_right(name, 18) + " - "@ + help + "\n"@
}

/// The help lines of `commands`, in order.
pub open spec fn command_lines(commands: Seq<(Seq<char>, Seq<char>)>) -> Seq<char>
    decreases commands.len(),
{
    if commands.len() == 0 {
        Seq::empty()
    } else {
        command_lines(commands.drop_last()) + command_line_text(commands.last().0, commands.last().1)
    }
}

/// The text, colors aside, of the host's answer to console command `cmd`
/// with `args`: `reload` reloads all plugins or the one named, `help`
/// lists the commands, anything else is unknown.
pub open spec fn system_reply(cmd: Seq<char>, args: Seq<Seq<char>>, commands: Seq<(Seq<char>, Seq<char>)>) -> Seq<char> {
    if cmd == "reload"@ {
        if args.len() == 0 {
            "[SYSTEM]: Reloading all plugins..."@
        } else {
            "[SYSTEM]: Reloading '"@ + args[0] + "'..."@
        }
    } else if cmd == "help"@ {
        "=== AVAILABLE COMMANDS ===\n"@ + ">>> help               - Show this help menu\n"@
            + ">>> reload [plugin]    - Reload one or all plugins\n"@ + command_lines(commands)
    } else {
        "[ERROR] Unknown command: "@ + cmd + ". See available commands with 'help'."@
    }
}

/// The code of a piece shown as it is, never colored.
pub open spec fn plain_code() -> Seq<char> {
    Seq::empty()
}

/// `w` shows `t`: exactly `t` where `code` is empty, else `t` painted with
/// `code` or plain; nothing is said of a text holding an escape character,
/// which `colored` may change.
pub open spec fn shows(w: Seq<char>, code: Seq<char>, t: Seq<char>) -> bool {
    if code.len() == 0 {
        w == t
    } else {
        has_escape(t) || painted_with(w, code, t)
    }
}

/// Each of `ws` shows its text of `ts` with its code of `codes`.
pub open spec fn shown_pieces(ws: Seq<Seq<char>>, codes: Seq<Seq<char>>, ts: Seq<Seq<char>>) -> bool {
    &&& ws.len() == codes.len()
    &&& ws.len() == ts.len()
    &&& forall|q: int| 0 <= q < ws.len() ==> #[trigger] shows(ws[q], codes[q], ts[q])
}

/// The segments of `line`, the pieces of one message.
pub open spec fn line_segments(line: Seq<Seq<char>>) -> Seq<(Seq<char>, Color)> {
    ansi_segments(joined(line), 0, Seq::empty(), Seq::empty(), default_color())
}

/// The segments of `lines`, each message cut on its own, one after
/// another.
pub open spec fn segments_of_lines(lines: Seq<Seq<Seq<char>>>) -> Seq<(Seq<char>, Color)>
    decreases lines.len(),
{
    if lines.len() == 0 {
        Seq::empty()
    } else {
        segments_of_lines(lines.drop_last()) + line_segments(lines.last())
    }
}

/// The codes and texts of the pieces of one plugin command's help line:
/// `>>>` and the padded name in green, a bright black dash, the help in
/// blue.
pub open spec fn command_line_pieces(name: Seq<char>, help: Seq<char>) -> (Seq<Seq<char>>, Seq<Seq<char>>) {
    (
        seq![seq!['3', '2'], plain_code(), seq!['3', '2'], plain_code(), seq!['9', '0'], plain_code(), seq!['3', '4'], plain_code()],
        seq![">>>"@, " "@, pad_right(name, 18), " "@, "-"@, " "@, help, "\n"@],
    )
}

/// The codes and texts of the pieces of the help's first lines: the title
/// with its name in yellow between bright black marks, then the host's
/// two commands, green, with their options in magenta, bright black
/// dashes and blue helps.
pub open spec fn help_header_pieces(i: int) -> (Seq<Seq<char>>, Seq<Seq<char>>) {
    if i == 0 {
        (
            seq![seq!['9', '0'], plain_code(), seq!['3', '3'], plain_code(), seq!['9', '0'], plain_code()],
            seq!["==="@, " "@, "AVAILABLE COMMANDS"@, " "@, "==="@, "\n"@],
        )
    } else if i == 1 {
        (
            seq![seq!['3', '2'], plain_code(), seq!['9', '0'], plain_code(), seq!['3', '4'], plain_code()],
            seq![">>> help"@, "               "@, "-"@, " "@, "Show this help menu"@, "\n"@],
        )
    } else {
        (
            seq![seq!['3', '2'], plain_code(), seq!['3', '5'], plain_code(), seq!['9', '0'], plain_code(), seq!['3', '4'], plain_code()],
            seq![">>> reload"@, " "@, "[plugin]"@, "    "@, "-"@, " "@, "Reload one or all plugins"@, "\n"@],
        )
    }
}

/// The codes and texts of the pieces of message `i` of the host's answer
/// to console command `cmd` with `args`: `[SYSTEM]` in bright blue then
/// bright black text, the plugin's name in cyan, for `reload`; the help
/// lines for `help`; `[ERROR]` in bold red, bright black text and the
/// command in green otherwise.
pub open spec fn reply_line(
    cmd: Seq<char>,
    args: Seq<Seq<char>>,
    commands: Seq<(Seq<char>, Seq<char>)>,
    i: int,
) -> (Seq<Seq<char>>, Seq<Seq<char>>) {
    if cmd == "reload"@ {
        if args.len() == 0 {
            (seq![seq!['9', '4'], seq!['9', '0']], seq!["[SYSTEM]"@, ": Reloading all plugins..."@])
        } else {
            (
                seq![seq!['9', '4'], seq!['9', '0'], seq!['3', '6'], seq!['9', '0']],
                seq!["[SYSTEM]"@, ": Reloading '"@, args[0], "'..."@],
            )
        }
    } else if cmd == "help"@ {
        if i < 3 {
            help_header_pieces(i)
        } else {
            command_line_pieces(commands[i - 3].0, commands[i - 3].1)
        }
    } else {
        (
            seq![
                seq!['1', ';', '3', '1'],
                plain_code(),
                seq!['9', '0'],
                plain_code(),
                seq!['3', '2'],
                seq!['9', '0'],
                seq!['3', '2'],
                seq!['9', '0'],
            ],
            seq!["[ERROR]"@, " "@, "Unknown command:"@, " "@, cmd, ". See available commands with '"@, "help"@, "'."@],
        )
    }
}

/// `lines` are the messages of the host's answer to console command `cmd`
/// with `args`, each made of the pieces that `reply_line` gives.
pub open spec fn reply_shown(
    cmd: Seq<char>,
    args: Seq<Seq<char>>,
    commands: Seq<(Seq<char>, Seq<char>)>,
    lines: Seq<Seq<Seq<char>>>,
) -> bool {
    &&& lines.len() == if cmd == "help"@ {
        3 + commands.len()
    } else {
        1
    }
    &&& forall|i: int|
        0 <= i < lines.len() ==> #[trigger] shown_pieces(
            lines[i],
            reply_line(cmd, args, commands, i).0,
            reply_line(cmd, args, commands, i).1,
        )
}

/// None of the texts that the answer to console command `cmd` with `args`
/// prints holds an escape character: the plugin named for `reload`, the
/// cached commands for `help`, the command itself otherwise.
pub open spec fn reply_inputs_plain(cmd: Seq<char>, args: Seq<Seq<char>>, commands: Seq<(Seq<char>, Seq<char>)>) -> bool {
    if cmd == "reload"@ {
        args.len() == 0 || !has_escape(args[0])
    } else if cmd == "help"@ {
        forall|k: int| 0 <= k < commands.len() ==> !has_escape((#[trigger] commands[k]).0) && !has_escape(commands[k].1)
    } else {
        !has_escape(cmd)
    }
}

/// The segments of one more message follow those of the others.
proof fn lemma_lines_push(lines: Seq<Seq<Seq<char>>>, line: Seq<Seq<char>>)
    ensures
        segments_of_lines(lines.push(line)) == segments_of_lines(lines) + line_segments(line),
{
    assert(lines.push(line).drop_last() =~= lines);
}

/// The segments of a single message are its own.
proof fn lemma_one_line(line: Seq<Seq<char>>)
    ensures
        segments_of_lines(seq![line]) == line_segments(line),
{
    lemma_lines_push(Seq::empty(), line);
    assert(Seq::<Seq<Seq<char>>>::empty().push(line) =~= seq![line]);
    assert(Seq::<(Seq<char>, Color)>::empty() + line_segments(line) =~= line_segments(line));
}

/// A message whose first piece shows some text has segments.
proof fn lemma_first_piece_shows(ws: Seq<Seq<char>>, t: Seq<char>)
    requires
        ws.len() > 0,
        piece(ws[0], t),
        t.len() > 0,
    ensures
        line_segments(ws).len() > 0,
{
    let chars = joined(ws);
    lemma_segments_text(chars, 0, Seq::empty(), Seq::empty(), default_color());
    lemma_joined_front(ws);
    assert(chars.subrange(0, ws[0].len() as int) =~= ws[0]);
    lemma_piece(chars, 0, ws[0], t);
    assert(segments_text(Seq::<(Seq<char>, Color)>::empty()) + Seq::<char>::empty() + stripped_from(chars, 0)
        =~= stripped_from(chars, 0));
    if line_segments(ws).len() == 0 {
        assert(segments_text(line_segments(ws)) == Seq::<char>::empty());
    }
}

/// Padding adds no escape character.
proof fn lemma_pad_plain(t: Seq<char>, width: nat)
    requires
        !has_escape(t),
    ensures
        !has_escape(pad_right(t, width)),
{
    if t.len() < width {
        let p = pad_right(t, width);
        assert forall|k: int| 0 <= k < p.len() implies p[k] != '\x1b' by {
            if k >= t.len() {
                assert(p[k] == ' ');
            }
        }
    }
}

/// The segments of `text` once painted as pieces.
fn segments_of(message: &String, Ghost(ws): Ghost<Seq<Seq<char>>>, Ghost(ts): Ghost<Seq<Seq<char>>>) -> (segments: Vec<
    TextSegment,
>)
    requires
        ws.len() == ts.len(),
        message@ == joined(ws),
    ensures
        segment_views(segments@) == line_segments(ws),
        (forall|q: int| 0 <= q < ws.len() ==> #[trigger] piece(ws[q], ts[q])) ==> segments_text(
            segment_views(segments@),
        ) == joined(ts),
{
    let segments = parse_ansi_colors(message.as_str());
    assert(segment_views(segments@) =~= segments@.map_values(|s: TextSegment| segment_view(s)));
    proof {
        if forall|q: int| 0 <= q < ws.len() ==> #[trigger] piece(ws[q], ts[q]) {
            lemma_pieces_segments(message@, ws, ts);
        }
    }
    segments
}

/// The help line of one plugin command, colored.
fn command_line(name: &str, help: &str) -> (result: (Vec<TextSegment>, Ghost<Seq<Seq<char>>>))
    ensures
        shown_pieces(result.1@, command_line_pieces(name@, help@).0, command_line_pieces(name@, help@).1),
        segment_views(result.0@) == line_segments(result.1@),
        !has_escape(name@) && !has_escape(help@) ==> segments_text(segment_views(result.0@)) == command_line_text(
            name@,
            help@,
        ),
{
    let mut message = String::new();
    let w0 = green(">>>");
    append(&mut message, w0.as_str());
    append(&mut message, " ");
    let name_padded = padded(name, 18);
    let w2 = green(name_padded.as_str());
    append(&mut message, w2.as_str());
    append(&mut message, " ");
    let w4 = bright_black("-");
    append(&mut message, w4.as_str());
    append(&mut message, " ");
    let w6 = blue(help);
    append(&mut message, w6.as_str());
    append(&mut message, "\n");
    proof {
        reveal_strlit(">>>");
        reveal_strlit(" ");
        reveal_strlit("-");
        reveal_strlit("\n");
    }
    let ghost ws = seq![w0@, " "@, w2@, " "@, w4@, " "@, w6@, "\n"@];
    let ghost ts = seq![">>>"@, " "@, name_padded@, " "@, "-"@, " "@, help@, "\n"@];
    proof {
        reveal_with_fuel(joined, 9);
        assert(message@ =~= joined(ws));
    }
    let segments = segments_of(&message, Ghost(ws), Ghost(ts));
    proof {
        if !has_escape(name@) && !has_escape(help@) {
            lemma_pad_plain(name@, 18);
            lemma_painted_piece(w0@, seq!['3', '2'], ">>>"@);
            lemma_painted_piece(w2@, seq!['3', '2'], name_padded@);
            lemma_painted_piece(w4@, seq!['9', '0'], "-"@);
            lemma_painted_piece(w6@, seq!['3', '4'], help@);
            assert forall|q: int| 0 <= q < ws.len() implies #[trigger] piece(ws[q], ts[q]) by {
            }
            reveal_with_fuel(joined, 9);
            reveal_strlit(">>> ");
            reveal_strlit(" - ");
            assert(joined(ts) =~= command_line_text(name@, help@));
        }
        let pieces = command_line_pieces(name@, help@);
        assert forall|q: int| 0 <= q < ws.len() implies #[trigger] shows(ws[q], pieces.0[q], pieces.1[q]) by {}
    }
    (segments, Ghost(ws))
}



/// `tag` is `[PLUGIN]` in bright bold magenta and `body` is `msg` in
/// bright black, or both are plain when coloring is off.
pub open spec fn log_line(tag: Seq<char>, body: Seq<char>, msg: Seq<char>) -> bool {
    &&& painted_with(tag, seq!['1', ';', '9', '5'], "[PLUGIN]"@)
    &&& painted_with(body, seq!['9', '0'], msg)
}

impl HostState {
    /// Answers console command `cmd` with `args`: `reload` queues all
    /// plugins, or the one named, for reloading; `help` lists the
    /// commands; anything else is unknown.
    #[verifier::rlimit(80)]
    #[verifier::spinoff_prover]
    pub fn host_system_command(&mut self, cmd: String, args: Vec<String>) -> (reply: Vec<TextSegment>)
        ensures
            final(self).shared.cached_commands == old(self).shared.cached_commands,
            final(self).shared.logs_to_broadcast == old(self).shared.logs_to_broadcast,
            queue_texts(final(self).shared.reload_queue@) == queue_texts(old(self).shared.reload_queue@) + if cmd@
                == "reload"@ {
                seq![
                    if args@.len() == 0 {
                        None
                    } else {
                        Some(args@[0]@)
                    },
                ]
            } else {
                Seq::empty()
            },
            reply@.len() > 0,
            exists|lines: Seq<Seq<Seq<char>>>|
                #![trigger reply_shown(cmd@, texts(args@), command_texts(old(self).shared.cached_commands@), lines)]
                reply_shown(cmd@, texts(args@), command_texts(old(self).shared.cached_commands@), lines)
                    && segment_views(reply@) == segments_of_lines(lines),
            reply_inputs_plain(cmd@, texts(args@), command_texts(old(self).shared.cached_commands@))
                ==> segments_text(segment_views(reply@)) == system_reply(
                cmd@,
                texts(args@),
                command_texts(old(self).shared.cached_commands@),
            ),
    {
        proof {
            reveal_strlit("[SYSTEM]");
            reveal_strlit(": Reloading all plugins...");
            reveal_strlit(": Reloading '");
            reveal_strlit("'...");
            reveal_strlit("[SYSTEM]: Reloading all plugins...");
            reveal_strlit("[SYSTEM]: Reloading '");
        }
        let ghost commands = command_texts(self.shared.cached_commands@);
        let ghost plain = reply_inputs_plain(cmd@, texts(args@), commands);
        proof {
            reveal_strlit("help");
            reveal_strlit("reload");
            assert("help"@ != "reload"@) by {
                assert("help"@.len() != "reload"@.len());
            }
        }
        if same_text(cmd.as_str(), "reload") {
            let mut message = String::new();
            let w0 = bright_blue("[SYSTEM]");
            append(&mut message, w0.as_str());
            if args.len() == 0 {
                let ghost before = self.shared.reload_queue@;
                self.shared.reload_queue.push(None);
                proof {
                    assert(queue_texts(self.shared.reload_queue@) =~= queue_texts(before) + seq![None::<Seq<char>>]);
                }
                let w1 = bright_black(": Reloading all plugins...");
                append(&mut message, w1.as_str());
                let ghost ws = seq![w0@, w1@];
                let ghost ts = seq!["[SYSTEM]"@, ": Reloading all plugins..."@];
                proof {
                    reveal_with_fuel(joined, 3);
                    assert(message@ =~= joined(ws));
                }
                let segments = segments_of(&message, Ghost(ws), Ghost(ts));
                proof {
                    lemma_painted_piece(w0@, seq!['9', '4'], "[SYSTEM]"@);
                    lemma_painted_piece(w1@, seq!['9', '0'], ": Reloading all plugins..."@);
                    assert forall|q: int| 0 <= q < ws.len() implies #[trigger] piece(ws[q], ts[q]) by {
                    }
                    reveal_with_fuel(joined, 3);
                    assert(joined(ts) =~= "[SYSTEM]: Reloading all plugins..."@);
                    lemma_first_piece_shows(ws, "[SYSTEM]"@);
                    let lines = seq![ws];
                    let pieces = reply_line(cmd@, texts(args@), commands, 0);
                    assert forall|q: int| 0 <= q < ws.len() implies #[trigger] shows(ws[q], pieces.0[q], pieces.1[q]) by {}
                    assert(lines[0] == ws);
                    assert(reply_shown(cmd@, texts(args@), commands, lines));
                    lemma_one_line(ws);
                }
                segments
            } else {
                let name = args[0].clone();
                let ghost before = self.shared.reload_queue@;
                self.shared.reload_queue.push(Some(name));
                proof {
                    assert(queue_texts(self.shared.reload_queue@) =~= queue_texts(before) + seq![Some(args@[0]@)]);
                }
                let w1 = bright_black(": Reloading '");
                append(&mut message, w1.as_str());
                let w2 = cyan(args[0].as_str());
                append(&mut message, w2.as_str());
                let w3 = bright_black("'...");
                append(&mut message, w3.as_str());
                let ghost ws = seq![w0@, w1@, w2@, w3@];
                let ghost ts = seq!["[SYSTEM]"@, ": Reloading '"@, args@[0]@, "'..."@];
                proof {
                    reveal_with_fuel(joined, 5);
                    assert(message@ =~= joined(ws));
                }
                let segments = segments_of(&message, Ghost(ws), Ghost(ts));
                proof {
                    if plain {
                        assert(!has_escape(texts(args@)[0]));
                        lemma_painted_piece(w0@, seq!['9', '4'], "[SYSTEM]"@);
                        lemma_painted_piece(w1@, seq!['9', '0'], ": Reloading '"@);
                        lemma_painted_piece(w2@, seq!['3', '6'], args@[0]@);
                        lemma_painted_piece(w3@, seq!['9', '0'], "'..."@);
                        assert forall|q: int| 0 <= q < ws.len() implies #[trigger] piece(ws[q], ts[q]) by {
                        }
                    }
                    reveal_with_fuel(joined, 5);
                    assert(joined(ts) =~= "[SYSTEM]: Reloading '"@ + texts(args@)[0] + "'..."@);
                    lemma_painted_piece(w0@, seq!['9', '4'], "[SYSTEM]"@);
                    lemma_first_piece_shows(ws, "[SYSTEM]"@);
                    let lines = seq![ws];
                    let pieces = reply_line(cmd@, texts(args@), commands, 0);
                    assert(texts(args@)[0] == args@[0]@);
                    assert forall|q: int| 0 <= q < ws.len() implies #[trigger] shows(ws[q], pieces.0[q], pieces.1[q]) by {}
                    assert(lines[0] == ws);
                    assert(reply_shown(cmd@, texts(args@), commands, lines));
                    lemma_one_line(ws);
                }
                segments
            }
        } else if same_text(cmd.as_str(), "help") {
            let (mut out, Ghost(header)) = self.help_header();
            let ghost mut lines = header;
            let mut k: usize = 0;
            proof {
                assert(commands.take(0) =~= Seq::<(Seq<char>, Seq<char>)>::empty());
                assert(command_lines(commands.take(0)) =~= Seq::<char>::empty());
                assert forall|i: int| 0 <= i < lines.len() implies #[trigger] shown_pieces(
                    lines[i],
                    reply_line(cmd@, texts(args@), commands, i).0,
                    reply_line(cmd@, texts(args@), commands, i).1,
                ) by {
                    assert(reply_line(cmd@, texts(args@), commands, i) == help_header_pieces(i));
                }
            }
            while k < self.shared.cached_commands.len()
                invariant
                    k <= self.shared.cached_commands@.len(),
                    commands == command_texts(self.shared.cached_commands@),
                    cmd@ == "help"@,
                    "help"@ != "reload"@,
                    plain == reply_inputs_plain(cmd@, texts(args@), commands),
                    plain ==> segments_text(segment_views(out@)) == "=== AVAILABLE COMMANDS ===\n"@
                        + ">>> help               - Show this help menu\n"@
                        + ">>> reload [plugin]    - Reload one or all plugins\n"@ + command_lines(
                        commands.take(k as int),
                    ),
                    lines.len() == 3 + k,
                    forall|i: int|
                        0 <= i < lines.len() ==> #[trigger] shown_pieces(
                            lines[i],
                            reply_line(cmd@, texts(args@), commands, i).0,
                            reply_line(cmd@, texts(args@), commands, i).1,
                        ),
                    segment_views(out@) == segments_of_lines(lines),
                    out@.len() > 0,
                decreases self.shared.cached_commands@.len() - k,
            {
                let (mut line, Ghost(ws)) = command_line(
                    self.shared.cached_commands[k].0.as_str(),
                    self.shared.cached_commands[k].1.as_str(),
                );
                let ghost before = out@;
                let ghost line_view = line@;
                let ghost before_lines = lines;
                out.append(&mut line);
                proof {
                    lemma_lines_push(lines, ws);
                    lines = lines.push(ws);
                    assert(segment_views(out@) =~= segment_views(before) + segment_views(line_view));
                    lemma_segments_text_concat(segment_views(before), segment_views(line_view));
                    assert(commands.take(k + 1).drop_last() =~= commands.take(k as int));
                    assert(commands[k as int] == (self.shared.cached_commands@[k as int].0@, self.shared.cached_commands@[k as int].1@));
                    if plain {
                        assert(!has_escape(commands[k as int].0) && !has_escape(commands[k as int].1));
                    }
                    assert(lines.drop_last() =~= before_lines);
                    assert forall|i: int| 0 <= i < lines.len() implies #[trigger] shown_pieces(
                        lines[i],
                        reply_line(cmd@, texts(args@), commands, i).0,
                        reply_line(cmd@, texts(args@), commands, i).1,
                    ) by {
                        if i < before_lines.len() {
                            assert(lines[i] == before_lines[i]);
                        }
                    }
                }
                k = k + 1;
            }
            proof {
                assert(commands.take(k as int) =~= commands);
                assert(reply_shown(cmd@, texts(args@), commands, lines));
            }
            out
        } else {
            let mut message = String::new();
            let w0 = red_bold("[ERROR]");
            append(&mut message, w0.as_str());
            append(&mut message, " ");
            let w2 = bright_black("Unknown command:");
            append(&mut message, w2.as_str());
            append(&mut message, " ");
            let w4 = green(cmd.as_str());
            append(&mut message, w4.as_str());
            let w5 = bright_black(". See available commands with '");
            append(&mut message, w5.as_str());
            let w6 = green("help");
            append(&mut message, w6.as_str());
            let w7 = bright_black("'.");
            append(&mut message, w7.as_str());
            proof {
                reveal_strlit("[ERROR]");
                reveal_strlit(" ");
                reveal_strlit("Unknown command:");
                reveal_strlit(". See available commands with '");
                reveal_strlit("help");
                reveal_strlit("'.");
                reveal_strlit("[ERROR] Unknown command: ");
                reveal_strlit(". See available commands with 'help'.");
            }
            let ghost ws = seq![w0@, " "@, w2@, " "@, w4@, w5@, w6@, w7@];
            let ghost ts = seq!["[ERROR]"@, " "@, "Unknown command:"@, " "@, cmd@, ". See available commands with '"@, "help"@, "'."@];
            proof {
                reveal_with_fuel(joined, 9);
                assert(message@ =~= joined(ws));
            }
            let segments = segments_of(&message, Ghost(ws), Ghost(ts));
            proof {
                if plain {
                    lemma_painted_piece(w0@, seq!['1', ';', '3', '1'], "[ERROR]"@);
                    lemma_painted_piece(w2@, seq!['9', '0'], "Unknown command:"@);
                    lemma_painted_piece(w4@, seq!['3', '2'], cmd@);
                    lemma_painted_piece(w5@, seq!['9', '0'], ". See available commands with '"@);
                    lemma_painted_piece(w6@, seq!['3', '2'], "help"@);
                    lemma_painted_piece(w7@, seq!['9', '0'], "'."@);
                    assert forall|q: int| 0 <= q < ws.len() implies #[trigger] piece(ws[q], ts[q]) by {
                    }
                }
                reveal_with_fuel(joined, 9);
                assert(joined(ts) =~= "[ERROR] Unknown command: "@ + cmd@ + ". See available commands with 'help'."@);
                lemma_painted_piece(w0@, seq!['1', ';', '3', '1'], "[ERROR]"@);
                lemma_first_piece_shows(ws, "[ERROR]"@);
                let lines = seq![ws];
                let pieces = reply_line(cmd@, texts(args@), commands, 0);
                assert forall|q: int| 0 <= q < ws.len() implies #[trigger] shows(ws[q], pieces.0[q], pieces.1[q]) by {}
                assert(lines[0] == ws);
                assert(reply_shown(cmd@, texts(args@), commands, lines));
                lemma_one_line(ws);
            }
            segments
        }
    }

    /// The first three lines of the help: its title and the host's own
    /// commands.
    #[verifier::rlimit(40)]
    fn help_header(&self) -> (result: (Vec<TextSegment>, Ghost<Seq<Seq<Seq<char>>>>))
        ensures
            result.1@.len() == 3,
            forall|i: int|
                0 <= i < 3 ==> #[trigger] shown_pieces(
                    result.1@[i],
                    help_header_pieces(i).0,
                    help_header_pieces(i).1,
                ),
            segment_views(result.0@) == segments_of_lines(result.1@),
            result.0@.len() > 0,
            segments_text(segment_views(result.0@)) == "=== AVAILABLE COMMANDS ===\n"@
                + ">>> help               - Show this help menu\n"@
                + ">>> reload [plugin]    - Reload one or all plugins\n"@,
    {
        proof {
            reveal_strlit("===");
            reveal_strlit(" ");
            reveal_strlit("AVAILABLE COMMANDS");
            reveal_strlit("\n");
            reveal_strlit(">>> help");
            reveal_strlit("               ");
            reveal_strlit("-");
            reveal_strlit("Show this help menu");
            reveal_strlit(">>> reload");
            reveal_strlit("[plugin]");
            reveal_strlit("    ");
            reveal_strlit("Reload one or all plugins");
            reveal_strlit("=== AVAILABLE COMMANDS ===\n");
            reveal_strlit(">>> help               - Show this help menu\n");
            reveal_strlit(">>> reload [plugin]    - Reload one or all plugins\n");
        }
        let mut title = String::new();
        let a0 = bright_black("===");
        append(&mut title, a0.as_str());
        append(&mut title, " ");
        let a2 = yellow("AVAILABLE COMMANDS");
        append(&mut title, a2.as_str());
        append(&mut title, " ");
        let a4 = bright_black("===");
        append(&mut title, a4.as_str());
        append(&mut title, "\n");
        let ghost wa = seq![a0@, " "@, a2@, " "@, a4@, "\n"@];
        let ghost ta = seq!["==="@, " "@, "AVAILABLE COMMANDS"@, " "@, "==="@, "\n"@];
        proof {
            reveal_with_fuel(joined, 7);
            assert(title@ =~= joined(wa));
        }
        let mut out = segments_of(&title, Ghost(wa), Ghost(ta));
        let mut help_line = String::new();
        let b0 = green(">>> help");
        append(&mut help_line, b0.as_str());
        append(&mut help_line, "               ");
        let b2 = bright_black("-");
        append(&mut help_line, b2.as_str());
        append(&mut help_line, " ");
        let b4 = blue("Show this help menu");
        append(&mut help_line, b4.as_str());
        append(&mut help_line, "\n");
        let ghost wb = seq![b0@, "               "@, b2@, " "@, b4@, "\n"@];
        let ghost tb = seq![">>> help"@, "               "@, "-"@, " "@, "Show this help menu"@, "\n"@];
        proof {
            reveal_with_fuel(joined, 7);
            assert(help_line@ =~= joined(wb));
        }
        let mut second = segments_of(&help_line, Ghost(wb), Ghost(tb));
        let mut reload_line = String::new();
        let c0 = green(">>> reload");
        append(&mut reload_line, c0.as_str());
        append(&mut reload_line, " ");
        let c2 = magenta("[plugin]");
        append(&mut reload_line, c2.as_str());
        append(&mut reload_line, "    ");
        let c4 = bright_black("-");
        append(&mut reload_line, c4.as_str());
        append(&mut reload_line, " ");
        let c6 = blue("Reload one or all plugins");
        append(&mut reload_line, c6.as_str());
        append(&mut reload_line, "\n");
        let ghost wc = seq![c0@, " "@, c2@, "    "@, c4@, " "@, c6@, "\n"@];
        let ghost tc = seq![">>> reload"@, " "@, "[plugin]"@, "    "@, "-"@, " "@, "Reload one or all plugins"@, "\n"@];
        proof {
            reveal_with_fuel(joined, 9);
            assert(reload_line@ =~= joined(wc));
        }
        let mut third = segments_of(&reload_line, Ghost(wc), Ghost(tc));
        proof {
            lemma_painted_piece(a0@, seq!['9', '0'], "==="@);
            lemma_painted_piece(a2@, seq!['3', '3'], "AVAILABLE COMMANDS"@);
            lemma_painted_piece(a4@, seq!['9', '0'], "==="@);
            assert forall|q: int| 0 <= q < wa.len() implies #[trigger] piece(wa[q], ta[q]) by {
            }
            lemma_painted_piece(b0@, seq!['3', '2'], ">>> help"@);
            lemma_painted_piece(b2@, seq!['9', '0'], "-"@);
            lemma_painted_piece(b4@, seq!['3', '4'], "Show this help menu"@);
            assert forall|q: int| 0 <= q < wb.len() implies #[trigger] piece(wb[q], tb[q]) by {
            }
            lemma_painted_piece(c0@, seq!['3', '2'], ">>> reload"@);
            lemma_painted_piece(c2@, seq!['3', '5'], "[plugin]"@);
            lemma_painted_piece(c4@, seq!['9', '0'], "-"@);
            lemma_painted_piece(c6@, seq!['3', '4'], "Reload one or all plugins"@);
            assert forall|q: int| 0 <= q < wc.len() implies #[trigger] piece(wc[q], tc[q]) by {
            }
            reveal_with_fuel(joined, 9);
            assert(joined(ta) =~= "=== AVAILABLE COMMANDS ===\n"@);
            assert(joined(tb) =~= ">>> help               - Show this help menu\n"@);
            assert(joined(tc) =~= ">>> reload [plugin]    - Reload one or all plugins\n"@);
        }
        let ghost first_view = out@;
        let ghost second_view = second@;
        out.append(&mut second);
        let ghost middle = out@;
        let ghost third_view = third@;
        out.append(&mut third);
        proof {
            assert(segment_views(middle) =~= segment_views(first_view) + segment_views(second_view));
            lemma_segments_text_concat(segment_views(first_view), segment_views(second_view));
            assert(segment_views(out@) =~= segment_views(middle) + segment_views(third_view));
            lemma_segments_text_concat(segment_views(middle), segment_views(third_view));
            lemma_first_piece_shows(wa, "==="@);
            let lines = seq![wa, wb, wc];
            lemma_one_line(wa);
            lemma_lines_push(seq![wa], wb);
            assert(seq![wa].push(wb) =~= seq![wa, wb]);
            lemma_lines_push(seq![wa, wb], wc);
            assert(seq![wa, wb].push(wc) =~= lines);
            assert(segments_of_lines(lines) == segment_views(out@));
            assert forall|q: int| 0 <= q < wa.len() implies #[trigger] shows(wa[q], help_header_pieces(0).0[q], help_header_pieces(0).1[q]) by {}
            assert forall|q: int| 0 <= q < wb.len() implies #[trigger] shows(wb[q], help_header_pieces(1).0[q], help_header_pieces(1).1[q]) by {}
            assert forall|q: int| 0 <= q < wc.len() implies #[trigger] shows(wc[q], help_header_pieces(2).0[q], help_header_pieces(2).1[q]) by {}
            assert forall|i: int| 0 <= i < 3 implies #[trigger] shown_pieces(lines[i], help_header_pieces(i).0, help_header_pieces(i).1) by {
                if i == 0 {
                    assert(lines[i] == wa);
                } else if i == 1 {
                    assert(lines[i] == wb);
                } else {
                    assert(lines[i] == wc);
                }
            }
        }
        let ghost header_lines = seq![wa, wb, wc];
        (out, Ghost(header_lines))
    }

    /// A plugin's log line: `[PLUGIN]` and the message, colored; its
    /// segments are queued for every plugin, and the line is returned for
    /// the host's own output.
    pub fn host_log(&mut self, msg: String) -> (formatted: String)
        ensures
            final(self).shared.cached_commands == old(self).shared.cached_commands,
            final(self).shared.reload_queue == old(self).shared.reload_queue,
            final(self).shared.logs_to_broadcast@.len() == old(self).shared.logs_to_broadcast@.len() + 1,
            final(self).shared.logs_to_broadcast@.drop_last() == old(self).shared.logs_to_broadcast@,
            segment_views(final(self).shared.logs_to_broadcast@.last()@) == ansi_segments(
                formatted@,
                0,
                Seq::empty(),
                Seq::empty(),
                default_color(),
            ),
            !has_escape(msg@) ==> segments_text(segment_views(final(self).shared.logs_to_broadcast@.last()@))
                == "[PLUGIN] "@ + msg@,
            !has_escape(msg@) ==> exists|tag: Seq<char>, body: Seq<char>|
                #![trigger log_line(tag, body, msg@)]
                log_line(tag, body, msg@) && formatted@ == tag + " "@ + body,
    {
        let mut formatted = String::new();
        let w0 = bright_magenta_bold("[PLUGIN]");
        append(&mut formatted, w0.as_str());
        append(&mut formatted, " ");
        let w2 = bright_black(msg.as_str());
        append(&mut formatted, w2.as_str());
        proof {
            reveal_strlit("[PLUGIN]");
            reveal_strlit(" ");
            reveal_strlit("[PLUGIN] ");
        }
        let ghost ws = seq![w0@, " "@, w2@];
        let ghost ts = seq!["[PLUGIN]"@, " "@, msg@];
        proof {
            reveal_with_fuel(joined, 4);
            assert(formatted@ =~= joined(ws));
        }
        let segments = parse_ansi_colors(formatted.as_str());
        proof {
            if !has_escape(msg@) {
                lemma_painted_piece(w0@, seq!['1', ';', '9', '5'], "[PLUGIN]"@);
                lemma_painted_piece(w2@, seq!['9', '0'], msg@);
                assert forall|q: int| 0 <= q < ws.len() implies #[trigger] piece(ws[q], ts[q]) by {
                }
                lemma_pieces_segments(formatted@, ws, ts);
            }
            reveal_with_fuel(joined, 4);
            assert(joined(ts) =~= "[PLUGIN] "@ + msg@);
            if !has_escape(msg@) {
                assert(formatted@ =~= w0@ + " "@ + w2@);
                assert(log_line(w0@, w2@, msg@));
            }
        }
        self.shared.logs_to_broadcast.push(segments);
        formatted
    }
}


} // verus!


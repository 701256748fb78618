//! The `mathml` preprocessor: replaces the LaTeX mathematics of a Markdown
//! document, inline and displayed, by MathML.

use crate::paths::{chars_of, lemma_name_at, names, same_chars, split_names, text_of};
use crate::rewrite::{apply_replacements, replacement_bytes, spliced};
use crate::spans::{spans_fit, spans_ordered, spans_valid};
use crate::text::{can_slice, slice, sliceable};
use pulldown_cmark::{Event, Options, Parser};
use std::borrow::Cow;
use std::ops::Range;
use vstd::prelude::*;
use vstd::string::*;
use vstd::utf8::*;

verus! {

#[verifier::external_type_specification]
#[verifier::external_body]
pub struct ExLatexError(latex2mathml::LatexError);

/// How a piece of mathematics is set: within the line, or on lines of its
/// own.
#[derive(Debug, Clone, Copy, PartialEq, Eq, Structural)]
pub enum MathKind {
    Inline,
    Display,
}

/// The events that `pulldown_cmark` reads a text as, with tables,
/// strikethrough, task lists and mathematics switched on: of each event
/// whether it is a piece of mathematics, and of which kind, and the bytes of
/// the text that it spans.
pub uninterp spec fn markdown_events(text: Seq<char>) -> Seq<(Option<MathKind>, usize, usize)>;

/// What `latex2mathml::latex_to_mathml` makes of a piece of LaTeX set in
/// this way, or `None` where it reports an error.
pub uninterp spec fn mathml_of(latex: Seq<char>, kind: MathKind) -> Option<Seq<char>>;

/// The events of `pulldown_cmark::Parser::new_ext` on a text, each with its
/// range in the text, as `into_offset_iter` gives them.
#[verifier::external_body]
fn events(markdown: &str) -> (found: Vec<(Option<MathKind>, usize, usize)>)
    ensures
        found@ == markdown_events(markdown@),
{
    let extensions = Options::ENABLE_GFM | Options::ENABLE_MATH | Options::ENABLE_STRIKETHROUGH
        | Options::ENABLE_TASKLISTS;
    Parser::new_ext(markdown, extensions).into_offset_iter().map(
        |(event, range)|
            match event {
                Event::InlineMath(_) => (Some(MathKind::Inline), range.start, range.end),
                Event::DisplayMath(_) => (Some(MathKind::Display), range.start, range.end),
                _ => (None, range.start, range.end),
            },
    ).collect()
}

/// `latex2mathml::latex_to_mathml`. It is not called on a text in which a
/// command `\middle` is followed by something else than an operator or a
/// delimiter, or by one with a prime: the converter has no answer for that,
/// and does not return.
#[verifier::external_body]
fn latex_to_mathml(latex: &str, kind: MathKind) -> (mathml: Result<
    String,
    latex2mathml::LatexError,
>)
    requires
        middles_fenced(latex@),
    ensures
        match mathml {
            Ok(text) => mathml_of(latex@, kind) == Some(text@),
            Err(_) => mathml_of(latex@, kind) is None,
        },
{
    match kind {
        MathKind::Inline => latex2mathml::latex_to_mathml(latex, latex2mathml::DisplayStyle::Inline),
        MathKind::Display => latex2mathml::latex_to_mathml(latex, latex2mathml::DisplayStyle::Block),
    }
}

/// What a `latex2mathml::LatexError` displays.
#[verifier::external_body]
fn describe(error: &latex2mathml::LatexError) -> String {
    format!("{error}")
}

/// The whitespace that the converter passes over before a token.
pub open spec fn is_blank(c: char) -> bool {
    c == ' ' || c == '\t' || c == '\n' || c == '\r'
}

/// The characters that the converter reads, each by itself, as an operator
/// or as a delimiter.
pub open spec fn is_fence(c: char) -> bool {
    ||| c == '=' || c == ';' || c == ',' || c == '.' || c == '\''
    ||| c == '(' || c == ')' || c == '[' || c == ']' || c == '|'
    ||| c == '+' || c == '-' || c == '*' || c == '/' || c == '!'
    ||| c == '<' || c == '>' || c == ':'
}

/// The letters that a command is spelt with.
pub open spec fn is_ascii_letter(c: char) -> bool {
    0x41 <= c as u32 <= 0x5A || 0x61 <= c as u32 <= 0x7A
}

/// The names of the commands that the converter reads as an operator or as
/// a delimiter, with `/` between each two.
pub const FENCE_COMMANDS: &'static str =
    "langle/rangle/{/}/lceil/rceil/lfloor/rfloor/lgroup/rgroup/llbracket/rrbracket/times/oplus/ominus/otimes/oslash/odot/bigcirc/amalg/pm/mp/cdot/cdots/vdots/ldots/ddots/circ/bullet/star/div/lnot/land/lor/sim/simeq/nsim/cong/approx/ne/neq/equiv/nequiv/prec/succ/preceq/succeq/dashv/asymp/doteq/propto/barwedge/ltimes/rtimes/Join/lhd/rhd/unlhd/unrhd/vee/uplus/wedge/boxdot/boxplus/boxminus/boxtimes/boxbox/boxslash/boxbslash/Cap/Cup/centerdot/circledast/circledcirc/circleddash/curlyvee/curlywedge/dotplus/intercal/divideontimes/leftthreetimes/rightthreetimes/smallsetminus/triangledown/triangleleft/triangleright/vartriangle/veebar/cap/cup/mid/nmid/|/parallel/perp/forall/exists/nexists/lt/gt/leq/geq/ll/gg/lessapprox/lesssim/eqslantless/leqslant/leqq/geqq/geqslant/eqslantgtr/gtrsim/gtrapprox/approxeq/lessdot/lll/lessgtr/lesseqgtr/lesseqqgtr/doteqdot/risingdotseq/leftarrow/gets/rightarrow/to/nleftarrow/nrightarrow/leftrightarrow/nleftrightarrow/longleftarrow/longrightarrow/longleftrightarrow/Leftarrow/Rightarrow/nLeftarrow/nRightarrow/Leftrightarrow/nLeftrightarrow/Longleftarrow/impliedby/Longrightarrow/implies/Longleftrightarrow/iff/uparrow/downarrow/updownarrow/Uparrow/Downarrow/Updownarrow/nearrow/searrow/swarrow/nwarrow/rightharpoonup/rightharpoondown/leftharpoonup/leftharpoondown/upharpoonleft/upharpoonright/downharpoonleft/downharpoonright/rightleftharpoons/leftrightharpoons/curvearrowleft/circlearrowleft/Lsh/upuparrows/rightrightarrows/rightleftarrows/Rrightarrow/rightarrowtail/looparrowright/curvearrowright/circlearrowright/Rsh/downdownarrows/leftleftarrows/leftrightarrows/Lleftarrow/leftarrowtail/looparrowleft/mapsto/longmapsto/hookrightarrow/hookleftarrow/multimap/leftrightsquigarrow/rightsquigarrow/lightning/Yleft/Yright/in/ni/notin/subset/supset/subseteq/supseteq/nsubseteq/nsupseteq/subsetneq/supsetneq/sqsubset/sqsubseteq/sqsupset/sqsupseteq/sqcap/sqcup/setminus/partial/nabla/smile/from/wr/bot/top/vdash/vDash/Vdash/models";

/// A command with this name is an operator or a delimiter to the converter.
pub open spec fn is_fence_command(name: Seq<char>) -> bool {
    names(FENCE_COMMANDS@).contains(name)
}

/// How many backslashes stand directly before `at`, one behind the other.
pub open spec fn backslashes_before(latex: Seq<char>, at: int) -> nat
    decreases at,
{
    if 0 < at <= latex.len() && latex[at - 1] == '\\' {
        1 + backslashes_before(latex, at - 1)
    } else {
        0
    }
}

/// The command `\middle` is written at `at`: a backslash that opens a
/// command, the six letters, and no letter behind them. Of backslashes in a
/// row every second one is the name of the command that the one before it
/// opens.
pub open spec fn middle_at(latex: Seq<char>, at: int) -> bool {
    &&& 0 <= at
    &&& at + 7 <= latex.len()
    &&& backslashes_before(latex, at) % 2 == 0
    &&& latex[at] == '\\'
    &&& latex[at + 1] == 'm'
    &&& latex[at + 2] == 'i'
    &&& latex[at + 3] == 'd'
    &&& latex[at + 4] == 'd'
    &&& latex[at + 5] == 'l'
    &&& latex[at + 6] == 'e'
    &&& (at + 7 < latex.len() ==> !is_ascii_letter(latex[at + 7]))
}

/// Where the whitespace that starts at `from` ends.
pub open spec fn blanks_end(latex: Seq<char>, from: int) -> int
    decreases latex.len() - from,
{
    if 0 <= from < latex.len() && is_blank(latex[from]) {
        blanks_end(latex, from + 1)
    } else {
        from
    }
}

/// Where the letters that start at `from` end.
pub open spec fn letters_end(latex: Seq<char>, from: int) -> int
    decreases latex.len() - from,
{
    if 0 <= from < latex.len() && is_ascii_letter(latex[from]) {
        letters_end(latex, from + 1)
    } else {
        from
    }
}

/// Where the command ends whose backslash stands at `at`: behind its
/// letters where a letter follows the backslash, else behind the one
/// character that follows it.
pub open spec fn command_end(latex: Seq<char>, at: int) -> int {
    if is_ascii_letter(latex[at + 1]) {
        letters_end(latex, at + 1)
    } else {
        at + 2
    }
}

/// Where the operator or delimiter ends that is written at `at`: one
/// character, the two characters `:=`, or a command of the table. `None`
/// where none is written there.
pub open spec fn fence_end(latex: Seq<char>, at: int) -> Option<int> {
    if !(0 <= at < latex.len()) {
        None
    } else if latex[at] == ':' && at + 1 < latex.len() && latex[at + 1] == '=' {
        Some(at + 2)
    } else if is_fence(latex[at]) {
        Some(at + 1)
    } else if latex[at] == '\\' && at + 1 < latex.len() && is_fence_command(
        latex.subrange(at + 1, command_end(latex, at)),
    ) {
        Some(command_end(latex, at))
    } else {
        None
    }
}

/// From `from` on, an operator or a delimiter comes first, whitespace
/// apart, and no prime comes next behind it.
pub open spec fn fence_follows(latex: Seq<char>, from: int) -> bool {
    match fence_end(latex, blanks_end(latex, from)) {
        Some(end) => {
            let next = blanks_end(latex, end);
            !(0 <= next < latex.len() && latex[next] == '\'')
        },
        None => false,
    }
}

/// Behind every `\middle` of the text stands an operator or a delimiter,
/// and no prime behind that: what the converter can stretch.
pub open spec fn middles_fenced(latex: Seq<char>) -> bool {
    forall|at: int| middle_at(latex, at) ==> fence_follows(latex, at + 7)
}

/// Whether a character is whitespace to the converter; see [`is_blank`].
pub fn blank(c: char) -> (blank: bool)
    ensures
        blank == is_blank(c),
{
    c == ' ' || c == '\t' || c == '\n' || c == '\r'
}

/// Whether a character is an operator or a delimiter by itself; see
/// [`is_fence`].
pub fn fence(c: char) -> (fence: bool)
    ensures
        fence == is_fence(c),
{
    c == '=' || c == ';' || c == ',' || c == '.' || c == '\'' || c == '(' || c == ')' || c == '['
        || c == ']' || c == '|' || c == '+' || c == '-' || c == '*' || c == '/' || c == '!' || c
        == '<' || c == '>' || c == ':'
}

/// Whether a character is a letter of a command; see [`is_ascii_letter`].
pub fn ascii_letter(c: char) -> (letter: bool)
    ensures
        letter == is_ascii_letter(c),
{
    let code = c as u32;
    (0x41 <= code && code <= 0x5A) || (0x61 <= code && code <= 0x7A)
}

/// Whether a command with this name is an operator or a delimiter to the
/// converter; see [`is_fence_command`].
pub fn fence_command(name: &Vec<char>) -> (known: bool)
    ensures
        known == is_fence_command(name@),
{
    let table = split_names(&chars_of(FENCE_COMMANDS));
    let mut i: usize = 0;
    while i < table.len()
        invariant
            0 <= i <= table.len(),
            table.deep_view() == names(FENCE_COMMANDS@),
            forall|k: int| 0 <= k < i ==> table.deep_view()[k] != name@,
        decreases table.len() - i,
    {
        proof {
            lemma_name_at(table, i as int);
        }
        if same_chars(&table[i], name) {
            return true;
        }
        i = i + 1;
    }
    false
}

/// Whether the backslashes that stand directly before `at` are even in
/// number; see [`backslashes_before`].
pub fn opens_command(chars: &Vec<char>, at: usize) -> (even: bool)
    requires
        at <= chars.len(),
    ensures
        even == (backslashes_before(chars@, at as int) % 2 == 0),
{
    let mut from: usize = at;
    let mut even = true;
    while from > 0 && chars[from - 1] == '\\'
        invariant
            0 <= from <= at <= chars.len(),
            (backslashes_before(chars@, at as int) % 2 == 0) == (even == (backslashes_before(
                chars@,
                from as int,
            ) % 2 == 0)),
        decreases from,
    {
        from = from - 1;
        even = !even;
    }
    even
}

/// Passes over whitespace; see [`blanks_end`].
pub fn skip_blanks(chars: &Vec<char>, from: usize) -> (to: usize)
    requires
        from <= chars.len(),
    ensures
        to == blanks_end(chars@, from as int),
        from <= to <= chars.len(),
{
    let mut at: usize = from;
    while at < chars.len() && blank(chars[at])
        invariant
            from <= at <= chars.len(),
            blanks_end(chars@, from as int) == blanks_end(chars@, at as int),
        decreases chars.len() - at,
    {
        at = at + 1;
    }
    at
}

/// Passes over letters; see [`letters_end`].
pub fn skip_letters(chars: &Vec<char>, from: usize) -> (to: usize)
    requires
        from <= chars.len(),
    ensures
        to == letters_end(chars@, from as int),
        from <= to <= chars.len(),
{
    let mut at: usize = from;
    while at < chars.len() && ascii_letter(chars[at])
        invariant
            from <= at <= chars.len(),
            letters_end(chars@, from as int) == letters_end(chars@, at as int),
        decreases chars.len() - at,
    {
        at = at + 1;
    }
    at
}

/// Where the operator or delimiter ends that is written at `at`; see
/// [`fence_end`].
pub fn end_of_fence(chars: &Vec<char>, at: usize) -> (end: Option<usize>)
    ensures
        match end {
            Some(end) => fence_end(chars@, at as int) == Some(end as int) && at < end
                <= chars.len(),
            None => fence_end(chars@, at as int) is None,
        },
{
    if at >= chars.len() {
        return None;
    }
    if chars[at] == ':' && at + 1 < chars.len() && chars[at + 1] == '=' {
        return Some(at + 2);
    }
    if fence(chars[at]) {
        return Some(at + 1);
    }
    if chars[at] != '\\' || at + 1 >= chars.len() {
        return None;
    }
    let end = if ascii_letter(chars[at + 1]) {
        skip_letters(chars, at + 1)
    } else {
        at + 2
    };
    let mut name: Vec<char> = Vec::new();
    let mut i: usize = at + 1;
    proof {
        assert(chars@.subrange(at + 1, at + 1) =~= Seq::<char>::empty());
    }
    while i < end
        invariant
            at + 1 <= i <= end <= chars.len(),
            name@ == chars@.subrange(at + 1, i as int),
        decreases end - i,
    {
        name.push(chars[i]);
        proof {
            assert(chars@.subrange(at + 1, i + 1) =~= chars@.subrange(at + 1, i as int).push(
                chars[i as int],
            ));
        }
        i = i + 1;
    }
    if fence_command(&name) {
        Some(end)
    } else {
        None
    }
}

/// Whether an operator or a delimiter comes first from `from` on, and no
/// prime behind it; see [`fence_follows`].
pub fn fenced(chars: &Vec<char>, from: usize) -> (follows: bool)
    requires
        from <= chars.len(),
    ensures
        follows == fence_follows(chars@, from as int),
{
    match end_of_fence(chars, skip_blanks(chars, from)) {
        Some(end) => {
            let next = skip_blanks(chars, end);
            !(next < chars.len() && chars[next] == '\'')
        },
        None => false,
    }
}

/// Whether every `\middle` of a piece of LaTeX is followed by what the
/// converter can stretch; see [`middles_fenced`].
pub fn has_fenced_middles(latex: &str) -> (all: bool)
    ensures
        all == middles_fenced(latex@),
{
    let chars = chars_of(latex);
    let n = chars.len();
    let mut i: usize = 0;
    while i < n
        invariant
            0 <= i <= n,
            n == chars.len(),
            chars@ == latex@,
            forall|at: int| 0 <= at < i && middle_at(chars@, at) ==> fence_follows(chars@, at + 7),
        decreases n - i,
    {
        if n - i >= 7 && chars[i] == '\\' && chars[i + 1] == 'm' && chars[i + 2] == 'i' && chars[i
            + 3] == 'd' && chars[i + 4] == 'd' && chars[i + 5] == 'l' && chars[i + 6] == 'e' && (i
            + 7 == n || !ascii_letter(chars[i + 7])) && opens_command(&chars, i) {
            if !fenced(&chars, i + 7) {
                proof {
                    assert(middle_at(chars@, i as int));
                }
                return false;
            }
        }
        i = i + 1;
    }
    true
}

/// What is reported of a `\middle` that is followed by something else than
/// an operator or a delimiter, or by one with a prime.
pub const MIDDLE_FAULT: &'static str =
    "An operator or a delimiter, and no prime behind it, is expected after \\middle.";

/// Why the mathematics of a document could not be replaced.
#[derive(Debug, PartialEq, Eq)]
pub enum MathError {
    /// A piece of mathematics cannot be cut out of the document.
    Malformed,
    /// A piece of mathematics is no LaTeX that can be converted; the message
    /// says why.
    Latex(String),
    /// Two pieces of mathematics overlap, or stand out of order.
    Overlapping,
}

/// How many dollar signs a text starts with.
pub open spec fn leading_dollars(text: Seq<char>) -> nat
    decreases text.len(),
{
    if text.len() > 0 && text.first() == '$' {
        1 + leading_dollars(text.drop_first())
    } else {
        0
    }
}

/// How many dollar signs a text ends with.
pub open spec fn trailing_dollars(text: Seq<char>) -> nat
    decreases text.len(),
{
    if text.len() > 0 && text.last() == '$' {
        1 + trailing_dollars(text.drop_last())
    } else {
        0
    }
}

/// A text without the dollar signs that it starts and ends with.
pub open spec fn undollared(text: Seq<char>) -> Seq<char> {
    let rest = text.skip(leading_dollars(text) as int);
    rest.take(rest.len() - trailing_dollars(rest))
}

/// Takes the dollar signs off both ends of a text; see [`undollared`].
pub fn strip_dollars(text: &str) -> (latex: String)
    ensures
        latex@ == undollared(text@),
{
    let chars = chars_of(text);
    let mut start: usize = 0;
    proof {
        assert(chars@.skip(0) =~= chars@);
    }
    while start < chars.len() && chars[start] == '$'
        invariant
            0 <= start <= chars.len(),
            leading_dollars(chars@) == start + leading_dollars(chars@.skip(start as int)),
        decreases chars.len() - start,
    {
        proof {
            assert(chars@.skip(start as int).drop_first() =~= chars@.skip(start + 1));
        }
        start = start + 1;
    }
    let ghost rest = chars@.skip(start as int);
    let mut end: usize = chars.len();
    proof {
        assert(rest.take(rest.len() as int) =~= rest);
    }
    while end > start && chars[end - 1] == '$'
        invariant
            start <= end <= chars.len(),
            rest == chars@.skip(start as int),
            trailing_dollars(rest) == (chars.len() - end) + trailing_dollars(
                rest.take(end - start),
            ),
        decreases end,
    {
        proof {
            assert(rest.take(end - start).last() == chars[end - 1]);
            assert(rest.take(end - start).drop_last() =~= rest.take(end - 1 - start));
        }
        end = end - 1;
    }
    proof {
        if end > start {
            assert(rest.take(end - start).last() == chars[end - 1]);
        }
        assert(trailing_dollars(rest) == chars.len() - end);
    }
    let mut latex: Vec<char> = Vec::new();
    let mut i: usize = start;
    proof {
        assert(chars@.subrange(start as int, start as int) =~= Seq::<char>::empty());
    }
    while i < end
        invariant
            start <= i <= end <= chars.len(),
            latex@ == chars@.subrange(start as int, i as int),
        decreases end - i,
    {
        latex.push(chars[i]);
        proof {
            assert(chars@.subrange(start as int, i + 1) =~= chars@.subrange(
                start as int,
                i as int,
            ).push(chars[i as int]));
        }
        i = i + 1;
    }
    proof {
        assert(chars@.subrange(start as int, end as int) =~= rest.take(end - start));
    }
    text_of(&latex)
}

/// The pieces of mathematics among the events, in their order.
pub open spec fn math_events(events: Seq<(Option<MathKind>, usize, usize)>) -> Seq<
    (MathKind, usize, usize),
>
    decreases events.len(),
{
    if events.len() == 0 {
        Seq::empty()
    } else {
        let before = math_events(events.drop_last());
        match events.last().0 {
            Some(kind) => before.push((kind, events.last().1, events.last().2)),
            None => before,
        }
    }
}

/// The LaTeX of a piece of mathematics: the text it spans, without the
/// dollar signs around it.
pub open spec fn latex_of(bytes: Seq<u8>, piece: (MathKind, usize, usize)) -> Seq<char> {
    undollared(decode_utf8(bytes.subrange(piece.1 as int, piece.2 as int)))
}

/// What is wrong with a piece of mathematics, if anything: `false` where it
/// cannot be cut out of the text, `true` where it is no LaTeX that can be
/// converted: a `\middle` of it is followed by what the converter cannot
/// stretch, or the converter reports an error.
pub open spec fn piece_fault(bytes: Seq<u8>, piece: (MathKind, usize, usize)) -> Option<bool> {
    if !sliceable(bytes, piece.1 as int, piece.2 as int) {
        Some(false)
    } else if !middles_fenced(latex_of(bytes, piece)) || mathml_of(latex_of(bytes, piece), piece.0)
        is None {
        Some(true)
    } else {
        None
    }
}

/// The first fault among the first `count` pieces, if there is one.
pub open spec fn pieces_fault(
    bytes: Seq<u8>,
    pieces: Seq<(MathKind, usize, usize)>,
    count: nat,
) -> Option<bool>
    decreases count,
{
    if count == 0 || count > pieces.len() {
        None
    } else {
        match pieces_fault(bytes, pieces, (count - 1) as nat) {
            Some(fault) => Some(fault),
            None => piece_fault(bytes, pieces[count - 1]),
        }
    }
}

/// The spans of the pieces.
pub open spec fn math_spans(pieces: Seq<(MathKind, usize, usize)>) -> Seq<Range<usize>> {
    Seq::new(pieces.len(), |i: int| (pieces[i].1)..(pieces[i].2))
}

/// The MathML of the pieces, encoded.
pub open spec fn math_replacements(bytes: Seq<u8>, pieces: Seq<(MathKind, usize, usize)>) -> Seq<
    Option<Seq<u8>>,
> {
    Seq::new(
        pieces.len(),
        |i: int|
            match mathml_of(latex_of(bytes, pieces[i]), pieces[i].0) {
                Some(mathml) => Some(encode_utf8(mathml)),
                None => None,
            },
    )
}

/// The decision holds the MathML of the piece.
pub open spec fn converted(
    bytes: Seq<u8>,
    piece: (MathKind, usize, usize),
    decision: Option<String>,
) -> bool {
    match decision {
        Some(text) => mathml_of(latex_of(bytes, piece), piece.0) == Some(text@),
        None => false,
    }
}

/// A fault among the first pieces is the fault of them all.
pub proof fn lemma_pieces_fault(bytes: Seq<u8>, pieces: Seq<(MathKind, usize, usize)>, count: nat)
    requires
        count <= pieces.len(),
        pieces_fault(bytes, pieces, count) is Some,
    ensures
        pieces_fault(bytes, pieces, pieces.len()) == pieces_fault(bytes, pieces, count),
    decreases pieces.len() - count,
{
    if count < pieces.len() {
        lemma_pieces_fault(bytes, pieces, count + 1);
    }
}

/// Replaces each piece of mathematics of a Markdown document by its MathML,
/// and keeps every other byte. A document without mathematics comes back
/// borrowed. The mathematics is what stands between single dollar signs
/// (inline) and between double ones (displayed).
pub fn replace_latex(markdown: &str) -> (replaced: Result<Cow<'_, str>, MathError>)
    ensures
        ({
            let bytes = encode_utf8(markdown@);
            let pieces = math_events(markdown_events(markdown@));
            match replaced {
                Ok(text) => {
                    &&& pieces_fault(bytes, pieces, pieces.len()) is None
                    &&& spans_ordered(math_spans(pieces))
                    &&& encode_utf8(text@) == spliced(
                        bytes,
                        math_spans(pieces),
                        math_replacements(bytes, pieces),
                    )
                    &&& (text is Borrowed) == (pieces.len() == 0)
                    &&& text matches Cow::Borrowed(same) ==> same@ == markdown@
                },
                Err(MathError::Malformed) => pieces_fault(bytes, pieces, pieces.len()) == Some(
                    false,
                ),
                Err(MathError::Latex(_)) => pieces_fault(bytes, pieces, pieces.len()) == Some(true),
                Err(MathError::Overlapping) => pieces_fault(bytes, pieces, pieces.len()) is None
                    && !spans_ordered(math_spans(pieces)),
            }
        }),
{
    let found = events(markdown);
    let ghost bytes = encode_utf8(markdown@);
    let ghost pieces = math_events(found@);
    let mut spans: Vec<Range<usize>> = Vec::new();
    let mut decisions: Vec<Option<String>> = Vec::new();
    let mut i: usize = 0;
    proof {
        assert(found@.take(0) =~= Seq::<(Option<MathKind>, usize, usize)>::empty());
        lemma_math_events_prefix(found@, 0);
    }
    while i < found.len()
        invariant
            0 <= i <= found.len(),
            found@ == markdown_events(markdown@),
            bytes == encode_utf8(markdown@),
            pieces == math_events(found@),
            spans.len() == decisions.len(),
            spans.len() == math_events(found@.take(i as int)).len(),
            is_prefix_of(math_events(found@.take(i as int)), pieces),
            pieces_fault(bytes, pieces, spans.len() as nat) is None,
            spans@ == math_spans(math_events(found@.take(i as int))),
            forall|k: int|
                0 <= k < decisions.len() ==> converted(bytes, pieces[k], #[trigger] decisions[k]),
            spans_fit(bytes, spans@),
        decreases found.len() - i,
    {
        let ghost done = math_events(found@.take(i as int));
        proof {
            assert(found@.take(i + 1).drop_last() =~= found@.take(i as int));
            assert(found@.take(i + 1).last() == found[i as int]);
            lemma_math_events_prefix(found@, i + 1);
        }
        match found[i].0 {
            Some(kind) => {
                let start = found[i].1;
                let end = found[i].2;
                proof {
                    let next = math_events(found@.take(i + 1));
                    assert(next == done.push((kind, start, end)));
                    assert(pieces.take(next.len() as int)[done.len() as int] == next[done.len() as int]);
                    assert(pieces[spans.len() as int] == (kind, start, end));
                }
                if !can_slice(markdown, start, end) {
                    proof {
                        lemma_pieces_fault(bytes, pieces, spans.len() as nat + 1);
                    }
                    return Err(MathError::Malformed);
                }
                let latex = strip_dollars(slice(markdown, start, end));
                if !has_fenced_middles(latex.as_str()) {
                    proof {
                        lemma_pieces_fault(bytes, pieces, spans.len() as nat + 1);
                    }
                    return Err(MathError::Latex(String::from_str(MIDDLE_FAULT)));
                }
                match latex_to_mathml(latex.as_str(), kind) {
                    Ok(mathml) => {
                        let ghost spans_before = spans@;
                        let ghost decisions_before = decisions@;
                        spans.push(start..end);
                        decisions.push(Some(mathml));
                        proof {
                            let next = math_events(found@.take(i + 1));
                            assert(next == done.push((kind, start, end)));
                            assert(spans@ =~= math_spans(next));
                            assert forall|k: int| 0 <= k < decisions.len() implies converted(
                                bytes,
                                pieces[k],
                                #[trigger] decisions[k],
                            ) by {
                                if k < decisions_before.len() {
                                    assert(decisions[k] == decisions_before[k]);
                                }
                            }
                            assert forall|k: int| 0 <= k < spans.len() implies sliceable(
                                bytes,
                                (#[trigger] spans[k]).start as int,
                                spans[k].end as int,
                            ) by {
                                if k < spans_before.len() {
                                    assert(spans[k] == spans_before[k]);
                                }
                            }
                        }
                    },
                    Err(error) => {
                        proof {
                            lemma_pieces_fault(bytes, pieces, spans.len() as nat + 1);
                        }
                        return Err(MathError::Latex(describe(&error)));
                    },
                }
            },
            None => {},
        }
        i = i + 1;
    }
    proof {
        assert(found@.take(i as int) =~= found@);
        assert(spans@ =~= math_spans(pieces));
    }
    if !spans_valid(markdown, &spans) {
        return Err(MathError::Overlapping);
    }
    let text = apply_replacements(markdown, &spans, &decisions);
    proof {
        assert forall|k: int| 0 <= k < decisions.len() implies #[trigger] replacement_bytes(
            decisions@,
        )[k] == math_replacements(bytes, pieces)[k] by {
            assert(converted(bytes, pieces[k], decisions[k]));
        }
        assert(replacement_bytes(decisions@) =~= math_replacements(bytes, pieces));
        if pieces.len() > 0 {
            assert(converted(bytes, pieces[0], decisions[0]));
        }
    }
    Ok(text)
}

/// `prefix` is the beginning of `all`.
pub open spec fn is_prefix_of<T>(prefix: Seq<T>, all: Seq<T>) -> bool {
    prefix.len() <= all.len() && all.take(prefix.len() as int) == prefix
}

/// The pieces among the first events are the first pieces among all events.
pub proof fn lemma_math_events_prefix(events: Seq<(Option<MathKind>, usize, usize)>, count: int)
    requires
        0 <= count <= events.len(),
    ensures
        is_prefix_of(math_events(events.take(count)), math_events(events)),
    decreases events.len() - count,
{
    if count == events.len() {
        assert(events.take(count) =~= events);
        assert(math_events(events).take(math_events(events).len() as int) =~= math_events(events));
    } else {
        lemma_math_events_prefix(events, count + 1);
        let next = events.take(count + 1);
        assert(next.drop_last() =~= events.take(count));
        let shorter = math_events(events.take(count));
        let longer = math_events(next);
        let all = math_events(events);
        assert(all.take(shorter.len() as int) =~= longer.take(shorter.len() as int)) by {
            assert(all.take(longer.len() as int) == longer);
        }
        assert(longer.take(shorter.len() as int) =~= shorter);
    }
}

/// `after` is `before` with each piece of mathematics replaced by its
/// MathML.
pub open spec fn chapter_replaced(before: Seq<char>, after: Seq<char>) -> bool {
    let bytes = encode_utf8(before);
    let pieces = math_events(markdown_events(before));
    &&& pieces_fault(bytes, pieces, pieces.len()) is None
    &&& spans_ordered(math_spans(pieces))
    &&& encode_utf8(after) == spliced(bytes, math_spans(pieces), math_replacements(bytes, pieces))
}

/// The mathematics of the text cannot be replaced.
pub open spec fn chapter_fault(text: Seq<char>) -> bool {
    let bytes = encode_utf8(text);
    let pieces = math_events(markdown_events(text));
    pieces_fault(bytes, pieces, pieces.len()) is Some || !spans_ordered(math_spans(pieces))
}

/// The preprocessor. It holds no state and reads no configuration.
pub struct MathMlPreprocessor;

impl MathMlPreprocessor {
    /// The name under which the preprocessor is configured.
    pub fn name(&self) -> (name: &'static str)
        ensures
            name@ == "replace"@,
    {
        "replace"
    }

    /// Replaces the mathematics of every chapter of a book; see
    /// [`replace_latex`]. The texts of the chapters come back in their order.
    /// The first chapter whose mathematics cannot be replaced ends the pass:
    /// the error names it by its index.
    pub fn run(&self, chapters: Vec<String>) -> (done: Result<Vec<String>, (usize, MathError)>)
        ensures
            match done {
                Ok(after) => after.len() == chapters.len() && forall|i: int|
                    0 <= i < after.len() ==> chapter_replaced(chapters[i]@, (#[trigger] after[i])@),
                Err((at, _)) => {
                    &&& at < chapters.len()
                    &&& chapter_fault(chapters[at as int]@)
                    &&& forall|k: int| 0 <= k < at ==> !chapter_fault((#[trigger] chapters[k])@)
                },
            },
    {
        let mut after: Vec<String> = Vec::new();
        let mut i: usize = 0;
        while i < chapters.len()
            invariant
                0 <= i <= chapters.len(),
                after.len() == i,
                forall|k: int| 0 <= k < i ==> chapter_replaced(chapters[k]@, (#[trigger] after[k])@),
            decreases chapters.len() - i,
        {
            let ghost before = after@;
            let text = match replace_latex(chapters[i].as_str()) {
                Ok(Cow::Owned(text)) => text,
                Ok(Cow::Borrowed(same)) => String::from_str(same),
                Err(error) => {
                    proof {
                        assert forall|k: int| 0 <= k < i implies !chapter_fault(
                            (#[trigger] chapters[k])@,
                        ) by {
                            assert(chapter_replaced(chapters[k]@, after[k]@));
                        }
                    }
                    return Err((i, error));
                },
            };
            after.push(text);
            proof {
                assert forall|k: int| 0 <= k < i + 1 implies chapter_replaced(
                    chapters[k]@,
                    (#[trigger] after[k])@,
                ) by {
                    if k < i {
                        assert(after[k] == before[k]);
                    }
                }
            }
            i = i + 1;
        }
        Ok(after)
    }

    /// Every renderer is supported.
    pub fn supports_renderer(&self, _renderer: &str) -> (supported: bool)
        ensures
            supported,
    {
        true
    }
}

} // verus!

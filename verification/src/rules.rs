//! The regex table: an ordered list of rules, each a pattern and the
//! template of what replaces a link that the pattern matches.

use std::borrow::Cow;
use vstd::prelude::*;
use vstd::string::*;
use vstd::utf8::*;

verus! {

#[verifier::external_type_specification]
#[verifier::external_body]
pub struct ExRegex(regex::Regex);

#[verifier::external_type_specification]
#[verifier::external_body]
pub struct ExRegexError(regex::Error);

/// Whether `regex::Regex::new` accepts a pattern.
pub uninterp spec fn compiles(source: Seq<char>) -> bool;

/// What `regex::Regex::replace` makes of a text, for the regex compiled from
/// `source` and a replacement template: the text with its first match
/// replaced by the expanded template, or `None` where nothing matches.
pub uninterp spec fn regex_replacement(
    source: Seq<char>,
    haystack: Seq<char>,
    template: Seq<char>,
) -> Option<Seq<char>>;

/// A compiled regex together with the pattern it was compiled from. Only
/// [`compile`] makes one, so the two always belong together.
pub struct Compiled {
    source: String,
    regex: regex::Regex,
}

impl Compiled {
    /// The pattern that was compiled.
    pub closed spec fn source(&self) -> Seq<char> {
        self.source@
    }
}

/// `regex::Regex::new`: compiles a pattern, or reports why it is none. The
/// result keeps the pattern beside the regex.
#[verifier::external_body]
pub(crate) fn compile(source: &str) -> (r: Result<Compiled, regex::Error>)
    ensures
        r is Ok == compiles(source@),
        r matches Ok(compiled) ==> compiled.source() == source@,
{
    regex::Regex::new(source).map(|regex| Compiled { source: source.to_string(), regex })
}

/// `regex::Regex::replace` with a template for the replacement: the new
/// text where the regex matches, `None` where the text comes back borrowed.
#[verifier::external_body]
fn replace_first(compiled: &Compiled, haystack: &str, template: &str) -> (r: Option<String>)
    ensures
        r.deep_view() == regex_replacement(compiled.source(), haystack@, template@),
{
    match compiled.regex.replace(haystack, template) {
        Cow::Owned(text) => Some(text),
        Cow::Borrowed(_) => None,
    }
}

/// Where a group of a regex lies in the first match that
/// `regex::Regex::captures` finds in a text, for the regex compiled from
/// `source`: `None` without a match, and `Some(None)` for a match in which
/// the group took no part.
pub uninterp spec fn regex_group(source: Seq<char>, haystack: Seq<char>, group: usize) -> Option<
    Option<(usize, usize)>,
>;

/// `regex::Regex::captures`, and of the captures the byte offsets of one
/// group.
#[verifier::external_body]
pub(crate) fn capture_group(compiled: &Compiled, haystack: &str, group: usize) -> (found: Option<
    Option<(usize, usize)>,
>)
    ensures
        found == regex_group(compiled.source(), haystack@, group),
{
    compiled.regex.captures(haystack).map(
        |captures| captures.get(group).map(|part| (part.start(), part.end())),
    )
}

/// Why a pattern is not accepted as a rule.
#[derive(Debug, PartialEq, Eq)]
pub enum PatternError {
    /// The pattern is not a regular expression; the message says why.
    Syntax(String),
    /// The compiled pattern would be larger than this limit.
    TooBig(usize),
    /// Another fault of the regex engine.
    Other,
}

/// Tells the variants of `regex::Error` apart.
#[verifier::external_body]
fn pattern_error(error: regex::Error) -> PatternError {
    match error {
        regex::Error::Syntax(message) => PatternError::Syntax(message),
        regex::Error::CompiledTooBig(limit) => PatternError::TooBig(limit),
        _ => PatternError::Other,
    }
}

/// What opens the pattern of a rule when it is compiled: the start of the
/// text, and a group around the pattern.
pub const ANCHOR_OPEN: &'static str = "\\A(?:";

/// What closes the pattern of a rule: the end of the group, and of the text.
pub const ANCHOR_CLOSE: &'static str = ")\\z";

/// What closes the pattern of a rule that ends in a comment: a new line,
/// which ends the comment, before the end of the group and of the text.
pub const ANCHOR_CLOSE_APART: &'static str = "\n)\\z";

/// A pattern between the anchors, so that it matches a whole link
/// destination or nothing.
pub open spec fn anchored(pattern: Seq<char>) -> Seq<char> {
    ANCHOR_OPEN@ + pattern + ANCHOR_CLOSE@
}

/// A pattern between the anchors, with the group closed on a line of its
/// own.
pub open spec fn anchored_apart(pattern: Seq<char>) -> Seq<char> {
    ANCHOR_OPEN@ + pattern + ANCHOR_CLOSE_APART@
}

/// The pattern can be compiled between the anchors, one way or the other.
pub open spec fn takes_anchors(pattern: Seq<char>) -> bool {
    compiles(anchored(pattern)) || compiles(anchored_apart(pattern))
}

/// The pattern of a rule as it is compiled: between the anchors where that
/// is a regular expression, with the group closed on a line of its own
/// where only that is one, and else as it stands.
pub open spec fn matcher_source(pattern: Seq<char>) -> Seq<char> {
    if compiles(anchored(pattern)) {
        anchored(pattern)
    } else if compiles(anchored_apart(pattern)) {
        anchored_apart(pattern)
    } else {
        pattern
    }
}

/// One rule of the table.
pub struct Rule {
    matcher: Compiled,
    anchors: bool,
    pattern: String,
    template: String,
}

impl Rule {
    /// The pattern as the rule's author wrote it.
    pub closed spec fn pattern(&self) -> Seq<char> {
        self.pattern@
    }

    /// The template of the replacement, in which `$1` or `${name}` stand for
    /// what a group of the pattern matched.
    pub closed spec fn template(&self) -> Seq<char> {
        self.template@
    }

    /// The rule matches with the pattern it shows, compiled as
    /// [`matcher_source`] says.
    #[verifier::type_invariant]
    spec fn matches_its_pattern(&self) -> bool {
        &&& self.matcher.source() == matcher_source(self.pattern@)
        &&& self.anchors == takes_anchors(self.pattern@)
    }

    /// The rule's answer for a link destination: the expanded template where
    /// the pattern matches the whole destination, and `None` where it does
    /// not. No rule matches an empty destination. A pattern that takes no
    /// anchors matches the whole destination where its first match is the
    /// whole destination.
    pub open spec fn decision(&self, link: Seq<char>) -> Option<Seq<char>> {
        if link.len() == 0 {
            None
        } else if takes_anchors(self.pattern()) {
            regex_replacement(matcher_source(self.pattern()), link, self.template())
        } else if regex_group(self.pattern(), link, 0) == Some(
            Some((0usize, encode_utf8(link).len() as usize)),
        ) {
            regex_replacement(self.pattern(), link, self.template())
        } else {
            None
        }
    }

    /// Makes a rule of a pattern and a template. Every regular expression
    /// is a pattern.
    pub fn new(pattern: &str, template: &str) -> (r: Result<Rule, PatternError>)
        ensures
            r is Ok == compiles(pattern@),
            r matches Ok(rule) ==> rule.pattern() == pattern@ && rule.template() == template@,
    {
        let plain = match compile(pattern) {
            Ok(plain) => plain,
            Err(error) => {
                return Err(pattern_error(error));
            },
        };
        let mut source = String::from_str(ANCHOR_OPEN);
        source.append(pattern);
        source.append(ANCHOR_CLOSE);
        let mut apart = String::from_str(ANCHOR_OPEN);
        apart.append(pattern);
        apart.append(ANCHOR_CLOSE_APART);
        let (matcher, anchors) = match compile(source.as_str()) {
            Ok(matcher) => (matcher, true),
            Err(_) => match compile(apart.as_str()) {
                Ok(matcher) => (matcher, true),
                Err(_) => (plain, false),
            },
        };
        Ok(
            Rule {
                matcher,
                anchors,
                pattern: String::from_str(pattern),
                template: String::from_str(template),
            },
        )
    }

    /// Asks the rule about one link destination.
    pub fn apply(&self, link: &str) -> (r: Option<String>)
        ensures
            r.deep_view() == self.decision(link@),
    {
        proof {
            use_type_invariant(self);
        }
        if link.is_empty() {
            return None;
        }
        if !self.anchors {
            let whole = link.as_bytes().len();
            match capture_group(&self.matcher, link, 0) {
                Some(Some((start, end))) => {
                    if start != 0 || end != whole {
                        return None;
                    }
                },
                _ => {
                    return None;
                },
            }
        }
        replace_first(&self.matcher, link, self.template.as_str())
    }
}

/// The answer of the table: that of the first rule with one.
pub open spec fn first_match(rules: Seq<Rule>, link: Seq<char>) -> Option<Seq<char>>
    decreases rules.len(),
{
    if rules.len() == 0 {
        None
    } else {
        match rules.first().decision(link) {
            Some(text) => Some(text),
            None => first_match(rules.drop_first(), link),
        }
    }
}

/// Tries the rules in order on a link destination. The first one that
/// matches decides, whether or not its replacement differs from the link;
/// later rules are not tried then.
pub fn decide(rules: &[Rule], link: &str) -> (r: Option<String>)
    ensures
        r.deep_view() == first_match(rules@, link@),
{
    let mut i: usize = 0;
    proof {
        assert(rules@.skip(0) =~= rules@);
    }
    while i < rules.len()
        invariant
            0 <= i <= rules.len(),
            first_match(rules@, link@) == first_match(rules@.skip(i as int), link@),
        decreases rules.len() - i,
    {
        proof {
            assert(rules@.skip(i as int).first() == rules[i as int]);
            assert(rules@.skip(i as int).drop_first() =~= rules@.skip(i + 1));
        }
        match rules[i].apply(link) {
            Some(text) => {
                return Some(text);
            },
            None => {},
        }
        i = i + 1;
    }
    None
}

} // verus!

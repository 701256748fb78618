//! The `replace` preprocessor: as `regexreplace`, with a second table of
//! rules for links to files of the book, which are matched by their path
//! from the root of the book.

use crate::config::{holds_rules, read_fault, read_rules, ConfigError, Value};
use crate::links::{
    answers_exactly, answers_of, lemma_rewritten_weaken, may_decide, replace_links,
    rewrite_gives, rewritten, scan_fault, LinkError, RewriteError,
};
use crate::paths::{
    chain_names, chars_of, is_absolute, is_current, is_parent, joined, names, parent, parent_of,
    render, rendered, split_names, starts_at_root, text_of,
};
use crate::rules::{decide, first_match, Rule};
use relative_path::PathExt;
use std::borrow::Cow;
use vstd::prelude::*;
use vstd::string::*;

verus! {

/// The name under which the preprocessor is configured.
pub const NAME: &'static str = "replace";

/// The key of the configuration under which the rules for all links stand.
pub const LINK_REPLACEMENTS: &'static str = "link_replacements";

/// The key under which the rules for links to files of the book stand.
pub const LOCAL_LINK_REPLACEMENTS: &'static str = "local_link_replacements";

/// Whether `url::Url::parse` accepts a text as an absolute URL.
pub uninterp spec fn parses_as_url(link: Seq<char>) -> bool;

/// The relative path that `relative_path::PathExt::relative_to` builds from
/// the directory `root` to `path`, or `None` where it builds none.
pub uninterp spec fn path_relative_to(path: Seq<char>, root: Seq<char>) -> Option<Seq<char>>;

/// The names of a relative path after normalisation. Going through the
/// names from left to right, `.` is dropped, `..` takes back the last name
/// that was kept, and is kept itself where no name is left to take back, and
/// any other name is kept.
pub open spec fn relative_normal_form(names: Seq<Seq<char>>) -> Seq<Seq<char>>
    decreases names.len(),
{
    if names.len() == 0 {
        Seq::empty()
    } else {
        let kept = relative_normal_form(names.drop_last());
        let name = names.last();
        if is_current(name) {
            kept
        } else if is_parent(name) {
            if kept.len() == 0 || is_parent(kept.last()) {
                kept.push(name)
            } else {
                kept.drop_last()
            }
        } else {
            kept.push(name)
        }
    }
}

/// A relative path, normalised: its names in their normal form, with a
/// separator between each two.
pub open spec fn relative_normalized(path: Seq<char>) -> Seq<char> {
    joined(relative_normal_form(names(path)))
}

/// `url::Url::parse`, asked only whether it succeeds.
#[verifier::external_body]
fn is_url(link: &str) -> (parsed: bool)
    ensures
        parsed == parses_as_url(link@),
{
    url::Url::parse(link).is_ok()
}

/// `relative_path::PathExt::relative_to` on the paths of the file system
/// that the two texts spell.
#[verifier::external_body]
fn relative_to(path: &str, root: &str) -> (relative: Option<String>)
    ensures
        relative.deep_view() == path_relative_to(path@, root@),
{
    std::path::Path::new(path).relative_to(root).ok().map(|found| found.into_string())
}

/// `relative_path::RelativePath::normalize`: the path without its `.`, and
/// without each `..` that has a name before it to take back, that name
/// taken back with it.
#[verifier::external_body]
fn normalize_relative(path: &str) -> (normal: String)
    ensures
        normal@ == relative_normalized(path@),
{
    relative_path::RelativePath::new(path).normalize().into_string()
}

/// A link could not be decided: no relative path leads from the root of the
/// book to what the link points at.
#[derive(Debug, Clone, Copy, PartialEq, Eq, Structural)]
pub struct NotInBook;

/// What a link in a directory points at: the link itself where it starts at
/// the root, else the link behind the directory.
pub open spec fn pushed(directory: Seq<char>, link: Seq<char>) -> Seq<char> {
    if is_absolute(link) {
        link
    } else {
        rendered(is_absolute(directory), names(directory) + names(link))
    }
}

/// What a link in a directory points at; see [`pushed`].
pub fn push(directory: &str, link: &str) -> (path: String)
    ensures
        path@ == pushed(directory@, link@),
{
    let link_chars = chars_of(link);
    if starts_at_root(&link_chars) {
        return String::from_str(link);
    }
    let chars = chars_of(directory);
    let link_names = split_names(&link_chars);
    let all = chain_names(&split_names(&chars), &link_names, 0);
    proof {
        assert(link_names.deep_view().skip(0) =~= link_names.deep_view());
    }
    text_of(&render(starts_at_root(&chars), &all))
}

/// The directory of a chapter: that of the chapter's file, taken from the
/// root of the book. A chapter without a file lies in none.
pub open spec fn chapter_dir(root: Seq<char>, chapter_path: Option<Seq<char>>) -> Option<Seq<char>> {
    match chapter_path {
        Some(path) => match parent(pushed(root, path)) {
            Some(directory) => Some(directory),
            None => Some(pushed(root, path)),
        },
        None => None,
    }
}

/// The answer for one link of a chapter. A link that is no URL, in a
/// chapter with a file, is first held against the local rules, by its
/// normalised path from the root of the book; the first local rule that
/// matches decides. Else the first of the other rules that matches the
/// link as it stands decides, and without one the link is kept.
pub open spec fn link_answer(
    local: Seq<Rule>,
    rules: Seq<Rule>,
    directory: Option<Seq<char>>,
    root: Seq<char>,
) -> spec_fn(Seq<char>) -> Result<Option<Seq<char>>, NotInBook> {
    |link: Seq<char>|
        match directory {
            Some(directory) if !parses_as_url(link) => match path_relative_to(
                pushed(directory, link),
                root,
            ) {
                None => Err(NotInBook),
                Some(relative) => match first_match(local, relative_normalized(relative)) {
                    Some(new) => Ok(Some(new)),
                    None => Ok(first_match(rules, link)),
                },
            },
            _ => Ok(first_match(rules, link)),
        }
}

/// Decides one link of a chapter; see [`link_answer`].
pub fn decide_link(
    link: &str,
    local: &[Rule],
    rules: &[Rule],
    directory: Option<&str>,
    root: &str,
) -> (answer: Result<Option<String>, NotInBook>)
    ensures
        answers_exactly(link_answer(local@, rules@, directory.deep_view(), root@))(link@, answer),
{
    match directory {
        Some(directory) => {
            if !is_url(link) {
                let absolute = push(directory, link);
                let relative = match relative_to(absolute.as_str(), root) {
                    Some(relative) => normalize_relative(relative.as_str()),
                    None => {
                        return Err(NotInBook);
                    },
                };
                match decide(local, relative.as_str()) {
                    Some(new) => {
                        return Ok(Some(new));
                    },
                    None => {},
                }
            }
        },
        None => {},
    }
    Ok(decide(rules, link))
}

/// A chapter of a book: its text, and the path of its file from the root of
/// the book where it has one.
#[derive(Debug, PartialEq, Eq)]
pub struct Chapter {
    pub content: String,
    pub path: Option<String>,
}

/// Why a book could not be processed.
#[derive(Debug, PartialEq, Eq)]
pub enum RunError {
    /// The rules could not be read from the configuration.
    Config(ConfigError),
    /// The links of the chapter with this index could not be located.
    Links(usize, LinkError),
    /// A link of the chapter with this index points outside the book.
    NotInBook(usize),
}

/// The texts are those of the chapters, each rewritten by the two tables
/// of rules.
pub open spec fn chapters_rewritten(
    local: Seq<Rule>,
    rules: Seq<Rule>,
    root: Seq<char>,
    chapters: Seq<Chapter>,
    after: Seq<String>,
) -> bool {
    &&& after.len() == chapters.len()
    &&& forall|i: int|
        0 <= i < after.len() ==> rewrite_gives(
            answers_exactly(
                link_answer(local, rules, chapter_dir(root, chapters[i].path.deep_view()), root),
            ),
            chapters[i].content@,
            (#[trigger] after[i])@,
        )
}

/// Every chapter before the one at `at` can be rewritten by the two
/// tables of rules.
pub open spec fn rewritten_before(
    local: Seq<Rule>,
    rules: Seq<Rule>,
    root: Seq<char>,
    chapters: Seq<Chapter>,
    at: int,
) -> bool {
    exists|done: Seq<String>| #[trigger] chapters_rewritten(local, rules, root, chapters.take(at), done)
}

/// The preprocessor. It holds no state: everything comes from the
/// configuration it is run with.
pub struct RegexReplace;

impl RegexReplace {
    pub fn new() -> (preprocessor: RegexReplace) {
        RegexReplace
    }

    /// The name under which the preprocessor is configured.
    pub fn name(&self) -> (name: &'static str)
        ensures
            name@ == NAME@,
    {
        NAME
    }

    /// Every renderer is supported: links are rewritten in the Markdown
    /// source, before any rendering.
    pub fn supports_renderer(&self, _renderer: &str) -> (supported: bool)
        ensures
            supported,
    {
        true
    }

    /// Reads the rules that the preprocessor's table of the configuration
    /// holds under `rep_type`; see [`read_rules`].
    pub fn get_replacements(&self, preproc_cfg: &Vec<(String, Value)>, rep_type: &str) -> (rules:
        Result<Vec<Rule>, ConfigError>)
        ensures
            match rules {
                Ok(rules) => read_fault(preproc_cfg@, rep_type@) is None && holds_rules(
                    preproc_cfg@,
                    rep_type@,
                    rules@,
                ),
                Err(ConfigError::NotRules) => read_fault(preproc_cfg@, rep_type@) == Some(false),
                Err(ConfigError::Pattern(_)) => read_fault(preproc_cfg@, rep_type@) == Some(true),
            },
    {
        read_rules(preproc_cfg, rep_type)
    }

    /// Rewrites the links of one chapter of the book at `root`; see
    /// [`link_answer`]. The text comes back new, or `None` where no link is
    /// replaced.
    pub fn rewrite_chapter(
        &self,
        chapter: &Chapter,
        root: &str,
        local: &Vec<Rule>,
        rules: &Vec<Rule>,
    ) -> (text: Result<Option<String>, RewriteError<NotInBook>>)
        ensures
            match text {
                Ok(Some(after)) => rewrite_gives(
                    answers_exactly(
                        link_answer(
                            local@,
                            rules@,
                            chapter_dir(root@, chapter.path.deep_view()),
                            root@,
                        ),
                    ),
                    chapter.content@,
                    after@,
                ),
                Ok(None) => rewrite_gives(
                    answers_exactly(
                        link_answer(
                            local@,
                            rules@,
                            chapter_dir(root@, chapter.path.deep_view()),
                            root@,
                        ),
                    ),
                    chapter.content@,
                    chapter.content@,
                ),
                Err(error) => rewritten(
                    answers_exactly(
                        link_answer(
                            local@,
                            rules@,
                            chapter_dir(root@, chapter.path.deep_view()),
                            root@,
                        ),
                    ),
                    chapter.content@,
                    Err::<Cow<'_, str>, RewriteError<NotInBook>>(error),
                ),
            },
    {
        let directory: Option<String> = match &chapter.path {
            Some(path) => {
                let file = push(root, path.as_str());
                match parent_of(file.as_str()) {
                    Some(directory) => Some(directory),
                    None => Some(file),
                }
            },
            None => None,
        };
        let ghost exact = answers_exactly(
            link_answer(local@, rules@, chapter_dir(root@, chapter.path.deep_view()), root@),
        );
        let policy = |link: &str| -> (decision: Result<Option<String>, NotInBook>)
            ensures
                exact(link@, decision),
            {
                let directory: Option<&str> = match &directory {
                    Some(directory) => Some(directory.as_str()),
                    None => None,
                };
                decide_link(link, local.as_slice(), rules.as_slice(), directory, root)
            };
        let result = replace_links(chapter.content.as_str(), policy);
        proof {
            assert forall|text: Seq<char>, outcome: Result<Option<String>, NotInBook>| #[trigger]
                answers_of(policy)(text, outcome) implies exact(text, outcome) by {
                assert(may_decide(policy, text, outcome));
            }
            lemma_rewritten_weaken(answers_of(policy), exact, chapter.content@, result);
        }
        match result {
            Ok(Cow::Borrowed(_)) => Ok(None),
            Ok(Cow::Owned(text)) => Ok(Some(text)),
            Err(error) => Err(error),
        }
    }

    /// Rewrites the links of every chapter of the book at `root` by the two
    /// tables of rules, and hands back the texts of the chapters in their
    /// order. The first chapter that cannot be rewritten ends the pass.
    pub fn rewrite_chapters(
        &self,
        chapters: &Vec<Chapter>,
        root: &str,
        local: &Vec<Rule>,
        rules: &Vec<Rule>,
    ) -> (done: Result<Vec<String>, RunError>)
        ensures
            match done {
                Ok(after) => chapters_rewritten(local@, rules@, root@, chapters@, after@),
                Err(RunError::Links(at, fault)) => {
                    &&& at < chapters.len()
                    &&& scan_fault(chapters[at as int].content@) == Some(fault)
                    &&& rewritten_before(local@, rules@, root@, chapters@, at as int)
                },
                Err(RunError::NotInBook(at)) => at < chapters.len() && rewritten_before(
                    local@,
                    rules@,
                    root@,
                    chapters@,
                    at as int,
                ) && rewritten(
                    answers_exactly(
                        link_answer(
                            local@,
                            rules@,
                            chapter_dir(root@, chapters[at as int].path.deep_view()),
                            root@,
                        ),
                    ),
                    chapters[at as int].content@,
                    Err::<Cow<'_, str>, RewriteError<NotInBook>>(RewriteError::Policy(NotInBook)),
                ),
                Err(RunError::Config(_)) => false,
            },
    {
        let mut after: Vec<String> = Vec::new();
        let mut i: usize = 0;
        while i < chapters.len()
            invariant
                0 <= i <= chapters.len(),
                chapters_rewritten(local@, rules@, root@, chapters@.take(i as int), after@),
            decreases chapters.len() - i,
        {
            let ghost before = after@;
            let text = match self.rewrite_chapter(&chapters[i], root, local, rules) {
                Ok(Some(text)) => text,
                Ok(None) => chapters[i].content.clone(),
                Err(RewriteError::Locate(fault)) => {
                    return Err(RunError::Links(i, fault));
                },
                Err(RewriteError::Policy(_)) => {
                    return Err(RunError::NotInBook(i));
                },
            };
            after.push(text);
            proof {
                let done = chapters@.take(i + 1);
                assert forall|k: int| 0 <= k < after.len() implies rewrite_gives(
                    answers_exactly(
                        link_answer(
                            local@,
                            rules@,
                            chapter_dir(root@, done[k].path.deep_view()),
                            root@,
                        ),
                    ),
                    done[k].content@,
                    (#[trigger] after[k])@,
                ) by {
                    if k < i {
                        assert(after[k] == before[k]);
                        assert(chapters@.take(i as int)[k] == done[k]);
                    }
                }
            }
            i = i + 1;
        }
        proof {
            assert(chapters@.take(i as int) =~= chapters@);
        }
        Ok(after)
    }

    /// Processes the chapters of the book at `root`. Without a table of its
    /// own in the configuration the preprocessor leaves every chapter as it
    /// is; else it rewrites the links of every chapter by the rules under
    /// `local_link_replacements` and `link_replacements`.
    pub fn run(&self, preproc_cfg: Option<&Vec<(String, Value)>>, root: &str, chapters: &Vec<
        Chapter,
    >) -> (done: Result<Vec<String>, RunError>)
        ensures
            match (preproc_cfg, done) {
                (None, Ok(after)) => after.len() == chapters.len() && forall|i: int|
                    0 <= i < after.len() ==> (#[trigger] after[i])@ == chapters[i].content@,
                (None, Err(_)) => false,
                (Some(table), Ok(after)) => exists|local: Seq<Rule>, rules: Seq<Rule>|
                    #![auto]
                    {
                        &&& holds_rules(table@, LINK_REPLACEMENTS@, rules)
                        &&& holds_rules(table@, LOCAL_LINK_REPLACEMENTS@, local)
                        &&& chapters_rewritten(local, rules, root@, chapters@, after@)
                    },
                (Some(table), Err(RunError::Config(ConfigError::NotRules))) => read_fault(
                    table@,
                    LINK_REPLACEMENTS@,
                ) == Some(false) || (read_fault(table@, LINK_REPLACEMENTS@) is None && read_fault(
                    table@,
                    LOCAL_LINK_REPLACEMENTS@,
                ) == Some(false)),
                (Some(table), Err(RunError::Config(ConfigError::Pattern(_)))) => read_fault(
                    table@,
                    LINK_REPLACEMENTS@,
                ) == Some(true) || (read_fault(table@, LINK_REPLACEMENTS@) is None && read_fault(
                    table@,
                    LOCAL_LINK_REPLACEMENTS@,
                ) == Some(true)),
                (Some(table), Err(RunError::Links(at, fault))) => {
                    &&& at < chapters.len()
                    &&& scan_fault(chapters[at as int].content@) == Some(fault)
                    &&& exists|local: Seq<Rule>, rules: Seq<Rule>|
                        #![auto]
                        {
                            &&& holds_rules(table@, LINK_REPLACEMENTS@, rules)
                            &&& holds_rules(table@, LOCAL_LINK_REPLACEMENTS@, local)
                            &&& rewritten_before(local, rules, root@, chapters@, at as int)
                        }
                },
                (Some(table), Err(RunError::NotInBook(at))) => {
                    &&& at < chapters.len()
                    &&& exists|local: Seq<Rule>, rules: Seq<Rule>|
                        #![auto]
                        {
                            &&& holds_rules(table@, LINK_REPLACEMENTS@, rules)
                            &&& holds_rules(table@, LOCAL_LINK_REPLACEMENTS@, local)
                            &&& rewritten_before(local, rules, root@, chapters@, at as int)
                            &&& rewritten(
                                answers_exactly(
                                    link_answer(
                                        local,
                                        rules,
                                        chapter_dir(root@, chapters[at as int].path.deep_view()),
                                        root@,
                                    ),
                                ),
                                chapters[at as int].content@,
                                Err::<Cow<'_, str>, RewriteError<NotInBook>>(
                                    RewriteError::Policy(NotInBook),
                                ),
                            )
                        }
                },
            },
    {
        let table = match preproc_cfg {
            Some(table) => table,
            None => {
                let mut same: Vec<String> = Vec::new();
                let mut i: usize = 0;
                while i < chapters.len()
                    invariant
                        0 <= i <= chapters.len(),
                        same.len() == i,
                        forall|k: int| 0 <= k < i ==> (#[trigger] same[k])@ == chapters[k].content@,
                    decreases chapters.len() - i,
                {
                    same.push(chapters[i].content.clone());
                    i = i + 1;
                }
                return Ok(same);
            },
        };
        let rules = match self.get_replacements(table, LINK_REPLACEMENTS) {
            Ok(rules) => rules,
            Err(error) => {
                return Err(RunError::Config(error));
            },
        };
        let local = match self.get_replacements(table, LOCAL_LINK_REPLACEMENTS) {
            Ok(local) => local,
            Err(error) => {
                return Err(RunError::Config(error));
            },
        };
        self.rewrite_chapters(chapters, root, &local, &rules)
    }
}

} // verus!

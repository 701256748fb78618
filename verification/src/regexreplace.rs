//! The `regexreplace` preprocessor: rewrites the links of every chapter of a
//! book by a table of rules taken from the book's configuration.

use crate::config::{holds_rules, read_fault, read_rules, ConfigError, Value};
use crate::links::{
    link_spans, regexreplace_links, scan_fault, table_replacements, LinkError,
};
use crate::rewrite::spliced;
use crate::rules::Rule;
use std::borrow::Cow;
use vstd::prelude::*;
use vstd::string::*;
use vstd::utf8::*;

verus! {

/// The name under which the preprocessor is configured.
pub const NAME: &'static str = "regexreplace";

/// The key of the configuration under which the rules stand.
pub const LINK_REPLACEMENTS: &'static str = "link_replacements";

/// Why a book could not be processed.
#[derive(Debug, PartialEq, Eq)]
pub enum RunError {
    /// The rules could not be read from the configuration.
    Config(ConfigError),
    /// The links of the chapter with this index could not be located.
    Links(usize, LinkError),
}

/// `after` is `before` with every link destination that a rule matches
/// replaced by the answer of the first such rule.
pub open spec fn chapter_rewritten(rules: Seq<Rule>, before: Seq<char>, after: Seq<char>) -> bool {
    &&& scan_fault(before) is None
    &&& encode_utf8(after) == spliced(
        encode_utf8(before),
        link_spans(before),
        table_replacements(rules, encode_utf8(before), link_spans(before)),
    )
}

/// The links of every chapter before the one at `at` can be located.
pub open spec fn located_before(chapters: Seq<String>, at: int) -> bool {
    forall|k: int| 0 <= k < at && k < chapters.len() ==> scan_fault((#[trigger] chapters[k])@) is None
}

/// Rewrites the links of each chapter by the rules. The chapters come back
/// in their order; the first that cannot be rewritten ends the pass.
pub fn rewrite_chapters(chapters: Vec<String>, rules: &Vec<Rule>) -> (done: Result<
    Vec<String>,
    RunError,
>)
    ensures
        match done {
            Ok(after) => after.len() == chapters.len() && forall|i: int|
                0 <= i < after.len() ==> chapter_rewritten(
                    rules@,
                    chapters[i]@,
                    (#[trigger] after[i])@,
                ),
            Err(RunError::Links(at, fault)) => {
                &&& at < chapters.len()
                &&& scan_fault(chapters[at as int]@) == Some(fault)
                &&& located_before(chapters@, at as int)
            },
            Err(RunError::Config(_)) => false,
        },
{
    let mut after: Vec<String> = Vec::new();
    let mut i: usize = 0;
    while i < chapters.len()
        invariant
            0 <= i <= chapters.len(),
            after.len() == i,
            forall|k: int|
                0 <= k < i ==> chapter_rewritten(rules@, chapters[k]@, (#[trigger] after[k])@),
        decreases chapters.len() - i,
    {
        let ghost before = after@;
        let text = match regexreplace_links(chapters[i].as_str(), rules.as_slice()) {
            Ok(Cow::Owned(text)) => text,
            Ok(Cow::Borrowed(same)) => String::from_str(same),
            Err(fault) => {
                proof {
                    assert forall|k: int| 0 <= k < i implies scan_fault((#[trigger] chapters[k])@)
                        is None by {
                        assert(chapter_rewritten(rules@, chapters[k]@, after[k]@));
                    }
                }
                return Err(RunError::Links(i, fault));
            },
        };
        after.push(text);
        proof {
            assert forall|k: int| 0 <= k < i + 1 implies chapter_rewritten(
                rules@,
                chapters[k]@,
                (#[trigger] after[k])@,
            ) by {
                if k < i {
                    assert(after[k] == before[k]);
                }
            }
        }
        i = i + 1;
    }
    Ok(after)
}

/// The preprocessor. It holds no state: everything comes from the
/// configuration it is run with.
pub struct RegexReplace;

impl RegexReplace {
    pub fn new() -> (preprocessor: RegexReplace) {
        RegexReplace
    }

    /// The name under which the preprocessor is configured.
    pub fn name(&self) -> (name: &'static str)
        ensures
            name@ == NAME@,
    {
        NAME
    }

    /// Reads the rules that the preprocessor's table of the configuration
    /// holds under `rep_type`; see [`read_rules`].
    pub fn get_replacements(&self, preproc_cfg: &Vec<(String, Value)>, rep_type: &str) -> (rules:
        Result<Vec<Rule>, ConfigError>)
        ensures
            match rules {
                Ok(rules) => read_fault(preproc_cfg@, rep_type@) is None && holds_rules(
                    preproc_cfg@,
                    rep_type@,
                    rules@,
                ),
                Err(ConfigError::NotRules) => read_fault(preproc_cfg@, rep_type@) == Some(false),
                Err(ConfigError::Pattern(_)) => read_fault(preproc_cfg@, rep_type@) == Some(true),
            },
    {
        read_rules(preproc_cfg, rep_type)
    }

    /// Processes the chapters of a book. Without a table of its own in the
    /// configuration the preprocessor leaves the book as it is; else it
    /// rewrites the links of every chapter by the rules under
    /// `link_replacements`.
    pub fn run(&self, preproc_cfg: Option<&Vec<(String, Value)>>, chapters: Vec<String>) -> (done:
        Result<Vec<String>, RunError>)
        ensures
            match (preproc_cfg, done) {
                (None, Ok(after)) => after == chapters,
                (None, Err(_)) => false,
                (Some(table), Ok(after)) => exists|rules: Seq<Rule>|
                    #![auto]
                    {
                        &&& read_fault(table@, LINK_REPLACEMENTS@) is None
                        &&& holds_rules(table@, LINK_REPLACEMENTS@, rules)
                        &&& after.len() == chapters.len()
                        &&& forall|i: int|
                            0 <= i < after.len() ==> chapter_rewritten(
                                rules,
                                chapters[i]@,
                                (#[trigger] after[i])@,
                            )
                    },
                (Some(table), Err(RunError::Config(ConfigError::NotRules))) => read_fault(
                    table@,
                    LINK_REPLACEMENTS@,
                ) == Some(false),
                (Some(table), Err(RunError::Config(ConfigError::Pattern(_)))) => read_fault(
                    table@,
                    LINK_REPLACEMENTS@,
                ) == Some(true),
                (Some(table), Err(RunError::Links(at, fault))) => {
                    &&& read_fault(table@, LINK_REPLACEMENTS@) is None
                    &&& at < chapters.len()
                    &&& scan_fault(chapters[at as int]@) == Some(fault)
                    &&& located_before(chapters@, at as int)
                },
            },
    {
        let table = match preproc_cfg {
            Some(table) => table,
            None => {
                return Ok(chapters);
            },
        };
        let rules = match self.get_replacements(table, LINK_REPLACEMENTS) {
            Ok(rules) => rules,
            Err(error) => {
                return Err(RunError::Config(error));
            },
        };
        rewrite_chapters(chapters, &rules)
    }

    /// Every renderer is supported: links are rewritten in the Markdown
    /// source, before any rendering.
    pub fn supports_renderer(&self, _renderer: &str) -> (supported: bool)
        ensures
            supported,
    {
        true
    }
}

} // verus!

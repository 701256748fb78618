//! The configuration of a preprocessor, as far as the rules are read from it.

use crate::rules::{compiles, PatternError, Rule};
use vstd::prelude::*;
use vstd::string::*;

verus! {

/// A value of the configuration.
#[derive(Debug)]
pub enum Value {
    /// A text.
    Text(String),
    /// A list of values.
    Array(Vec<Value>),
    /// A table: keys with their values. A key stands once.
    Table(Vec<(String, Value)>),
    /// A value of any other kind: a number, a date, a truth value.
    Other,
}

/// Why no rules can be read from a configuration.
#[derive(Debug, PartialEq, Eq)]
pub enum ConfigError {
    /// The value under the key is no array of tables, each with a text under
    /// `regex` and a text under `replacement`.
    NotRules,
    /// A pattern is no regular expression.
    Pattern(PatternError),
}

/// The key under which a rule holds its pattern.
pub const REGEX: &'static str = "regex";

/// The key under which a rule holds the template of its replacement.
pub const REPLACEMENT: &'static str = "replacement";

/// Where a key stands in a table, or the length of a table without it.
pub open spec fn key_at(table: Seq<(String, Value)>, key: Seq<char>) -> int
    decreases table.len(),
{
    if table.len() == 0 {
        0
    } else if table.first().0@ == key {
        0
    } else {
        1 + key_at(table.drop_first(), key)
    }
}

/// The value under a key, if the table has the key.
pub open spec fn value_of(table: Seq<(String, Value)>, key: Seq<char>) -> Option<Value> {
    if key_at(table, key) < table.len() {
        Some(table[key_at(table, key)].1)
    } else {
        None
    }
}

/// The value under a key; see [`value_of`].
pub fn lookup<'a>(table: &'a Vec<(String, Value)>, key: &str) -> (found: Option<&'a Value>)
    ensures
        match found {
            Some(value) => value_of(table@, key@) == Some(*value),
            None => value_of(table@, key@) is None,
        },
{
    let key = String::from_str(key);
    let mut at: usize = 0;
    proof {
        assert(table@.skip(0) =~= table@);
    }
    while at < table.len() && table[at].0 != key
        invariant
            0 <= at <= table.len(),
            key_at(table@, key@) == at + key_at(table@.skip(at as int), key@),
        decreases table.len() - at,
    {
        proof {
            assert(table@.skip(at as int).first() == table[at as int]);
            assert(table@.skip(at as int).drop_first() =~= table@.skip(at + 1));
        }
        at = at + 1;
    }
    proof {
        if at < table.len() {
            assert(table@.skip(at as int).first() == table[at as int]);
        }
        assert(key_at(table@, key@) == at);
    }
    if at < table.len() {
        Some(&table[at].1)
    } else {
        None
    }
}

/// The pattern and the template that a value holds, if it is a table with a
/// text under `regex` and a text under `replacement`.
pub open spec fn rule_texts(value: Value) -> Option<(Seq<char>, Seq<char>)> {
    match value {
        Value::Table(table) => match (value_of(table@, REGEX@), value_of(table@, REPLACEMENT@)) {
            (Some(Value::Text(pattern)), Some(Value::Text(template))) => Some(
                (pattern@, template@),
            ),
            _ => None,
        },
        _ => None,
    }
}

/// A pattern that can stand in a rule.
pub open spec fn is_pattern(pattern: Seq<char>) -> bool {
    compiles(pattern)
}

/// Why the first `count` values of an array make no rules, if they do not:
/// the first value that holds no rule, or no pattern, decides.
pub open spec fn rules_fault(values: Seq<Value>, count: nat) -> Option<bool>
    decreases count,
{
    if count == 0 || count > values.len() {
        None
    } else {
        match rules_fault(values, (count - 1) as nat) {
            Some(fault) => Some(fault),
            None => match rule_texts(values[count - 1]) {
                None => Some(false),
                Some((pattern, _)) => if is_pattern(pattern) {
                    None
                } else {
                    Some(true)
                },
            },
        }
    }
}

/// The rules hold the patterns and templates of the values, in order.
pub open spec fn rules_match(rules: Seq<Rule>, values: Seq<Value>) -> bool {
    &&& rules.len() == values.len()
    &&& forall|i: int|
        0 <= i < rules.len() ==> rule_texts(values[i]) == Some(
            ((#[trigger] rules[i]).pattern(), rules[i].template()),
        )
}

/// The rules are those that the table holds under the key: none for a
/// table without the key, else one for each value of the array there.
pub open spec fn holds_rules(table: Seq<(String, Value)>, key: Seq<char>, rules: Seq<Rule>) -> bool {
    match value_of(table, key) {
        None => rules.len() == 0,
        Some(Value::Array(values)) => rules_fault(values@, values@.len()) is None && rules_match(
            rules,
            values@,
        ),
        Some(_) => false,
    }
}

/// Why the table holds no rules under the key, if it does not: `false`
/// for a value of the wrong shape, `true` for a pattern that is none.
pub open spec fn read_fault(table: Seq<(String, Value)>, key: Seq<char>) -> Option<bool> {
    match value_of(table, key) {
        None => None,
        Some(Value::Array(values)) => rules_fault(values@, values@.len()),
        Some(_) => Some(false),
    }
}

/// Reads the rules that a table of the configuration holds under `key`: an
/// array of tables, each with a pattern under `regex` and a template under
/// `replacement`. A table without the key holds no rules. The rules come in
/// the order of the array.
pub fn read_rules(table: &Vec<(String, Value)>, key: &str) -> (rules: Result<
    Vec<Rule>,
    ConfigError,
>)
    ensures
        match rules {
            Ok(rules) => read_fault(table@, key@) is None && holds_rules(table@, key@, rules@),
            Err(ConfigError::NotRules) => read_fault(table@, key@) == Some(false),
            Err(ConfigError::Pattern(_)) => read_fault(table@, key@) == Some(true),
        },
{
    let mut rules: Vec<Rule> = Vec::new();
    let values = match lookup(table, key) {
        None => {
            return Ok(rules);
        },
        Some(Value::Array(values)) => values,
        Some(_) => {
            return Err(ConfigError::NotRules);
        },
    };
    let mut i: usize = 0;
    while i < values.len()
        invariant
            0 <= i <= values.len(),
            value_of(table@, key@) == Some(Value::Array(*values)),
            rules_fault(values@, i as nat) is None,
            rules_match(rules@, values@.take(i as int)),
        decreases values.len() - i,
    {
        proof {
            assert(values@[i + 1 - 1] == values[i as int]);
        }
        let (pattern, template) = match &values[i] {
            Value::Table(entry) => match (lookup(entry, REGEX), lookup(entry, REPLACEMENT)) {
                (Some(Value::Text(pattern)), Some(Value::Text(template))) => (pattern, template),
                _ => {
                    proof {
                        lemma_rules_fault(values@, i as nat + 1);
                    }
                    return Err(ConfigError::NotRules);
                },
            },
            _ => {
                proof {
                    lemma_rules_fault(values@, i as nat + 1);
                }
                return Err(ConfigError::NotRules);
            },
        };
        match Rule::new(pattern.as_str(), template.as_str()) {
            Ok(rule) => {
                let ghost before = rules@;
                rules.push(rule);
                proof {
                    assert forall|k: int| 0 <= k < rules.len() implies rule_texts(
                        values@.take(i + 1)[k],
                    ) == Some(((#[trigger] rules[k]).pattern(), rules[k].template())) by {
                        if k < i {
                            assert(rules[k] == before[k]);
                            assert(values@.take(i as int)[k] == values@.take(i + 1)[k]);
                        }
                    }
                }
            },
            Err(error) => {
                proof {
                    lemma_rules_fault(values@, i as nat + 1);
                }
                return Err(ConfigError::Pattern(error));
            },
        }
        i = i + 1;
    }
    proof {
        assert(values@.take(i as int) =~= values@);
    }
    Ok(rules)
}

/// A fault among the first values is the fault of the array.
pub proof fn lemma_rules_fault(values: Seq<Value>, count: nat)
    requires
        count <= values.len(),
        rules_fault(values, count) is Some,
    ensures
        rules_fault(values, values.len()) == rules_fault(values, count),
    decreases values.len() - count,
{
    if count < values.len() {
        lemma_rules_fault(values, count + 1);
    }
}

} // verus!

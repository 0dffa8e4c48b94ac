//! The inclusion rules for file names.
//!
//! A rule is a regular expression. A name passes when there are no rules, or
//! when some rule is found somewhere in it. A rule that does not compile
//! matches nothing.

use crate::paths::texts;
use vstd::prelude::*;

verus! {

/// Whether `regex::Regex::new` accepts the pattern.
pub uninterp spec fn pattern_compiles(pattern: Seq<char>) -> bool;

/// Whether the regular expression compiled from the pattern has a match
/// somewhere in the text, which is when `Regex::captures` returns something.
pub uninterp spec fn pattern_found(pattern: Seq<char>, text: Seq<char>) -> bool;

/// Compiles the pattern with `regex::Regex::new` and searches the text with
/// `Regex::captures`. Nothing comes back for a pattern that does not compile;
/// otherwise whether a match was found.
#[verifier::external_body]
fn search(pattern: &str, text: &str) -> (r: Option<bool>)
    ensures
        r is Some == pattern_compiles(pattern@),
        r matches Some(found) ==> found == pattern_found(pattern@, text@),
{
    match regex::Regex::new(pattern) {
        Ok(re) => Some(re.captures(text).is_some()),
        Err(_) => None,
    }
}

/// What one rule says of a name: nothing if it does not compile, else whether
/// it was found.
pub open spec fn rule_outcome(rule: Seq<char>, name: Seq<char>) -> Option<bool> {
    if pattern_compiles(rule) {
        Some(pattern_found(rule, name))
    } else {
        None
    }
}

/// What each rule says of the name, in the order of the rules.
pub open spec fn rule_outcomes(name: Seq<char>, rules: Seq<Seq<char>>) -> Seq<Option<bool>> {
    Seq::new(rules.len(), |i: int| rule_outcome(rules[i], name))
}

/// The verdict over what the rules said: pass without rules, else pass when
/// one of them was found.
pub open spec fn verdict(outcomes: Seq<Option<bool>>) -> bool {
    outcomes.len() == 0 || exists|i: int| 0 <= i < outcomes.len() && outcomes[i] == Some(true)
}

/// Whether a name passes the rules.
pub open spec fn passes_rules(name: Seq<char>, rules: Seq<Seq<char>>) -> bool {
    verdict(rule_outcomes(name, rules))
}

/// Decides from what each rule said.
pub fn filter_verdict(outcomes: &Vec<Option<bool>>) -> (r: bool)
    ensures
        r == verdict(outcomes@),
{
    if outcomes.len() == 0 {
        return true;
    }
    let mut i: usize = 0;
    while i < outcomes.len()
        invariant
            i <= outcomes.len(),
            forall|j: int| 0 <= j < i ==> outcomes@[j] != Some(true),
        decreases outcomes.len() - i,
    {
        match outcomes[i] {
            Some(true) => {
                return true;
            },
            _ => {},
        }
        i = i + 1;
    }
    false
}

/// Asks every rule about the name.
pub fn ask_rules(filename: &str, rules: &Vec<String>) -> (r: Vec<Option<bool>>)
    ensures
        r@ == rule_outcomes(filename@, texts(rules@)),
{
    let mut outcomes: Vec<Option<bool>> = Vec::new();
    let mut i: usize = 0;
    while i < rules.len()
        invariant
            i <= rules.len(),
            outcomes@.len() == i,
            forall|j: int| 0 <= j < i ==> outcomes@[j] == rule_outcome(rules@[j]@, filename@),
        decreases rules.len() - i,
    {
        outcomes.push(search(rules[i].as_str(), filename));
        i = i + 1;
    }
    assert(outcomes@ =~= rule_outcomes(filename@, texts(rules@)));
    outcomes
}

/// Tells whether a file name passes the rules.
pub fn passes(filename: &str, rules: &Vec<String>) -> (r: bool)
    ensures
        r == passes_rules(filename@, texts(rules@)),
        rules.len() == 0 ==> r,
{
    let outcomes = ask_rules(filename, rules);
    filter_verdict(&outcomes)
}

/// A name passes as soon as one rule compiles and is found in it.
pub proof fn lemma_one_rule_suffices(name: Seq<char>, rules: Seq<Seq<char>>, i: int)
    requires
        0 <= i < rules.len(),
        pattern_compiles(rules[i]),
        pattern_found(rules[i], name),
    ensures
        passes_rules(name, rules),
{
    assert(rule_outcomes(name, rules)[i] == Some(true));
}

/// Without rules every name passes.
pub proof fn lemma_no_rules_pass(name: Seq<char>)
    ensures
        passes_rules(name, Seq::empty()),
{
}

} // verus!

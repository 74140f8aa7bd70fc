//! Shell-style name patterns, matched by the `glob` crate.

use vstd::prelude::*;
use vstd::string::StringExecFns;

verus! {

/// What `glob::Pattern::new` answers to a pattern: nothing where the pattern
/// compiles, the text of its syntax error where it does not.
pub uninterp spec fn glob_error_of(pattern: Seq<char>) -> Option<Seq<char>>;

/// Whether `glob::Pattern::matches` finds that the compiled pattern matches
/// the text.
pub uninterp spec fn glob_matches(pattern: Seq<char>, text: Seq<char>) -> bool;

/// A pattern that compiles.
pub open spec fn glob_valid(pattern: Seq<char>) -> bool {
    glob_error_of(pattern) is None
}

/// Whether one of the patterns compiles and matches the text.
pub open spec fn any_glob_matches(patterns: Seq<Seq<char>>, text: Seq<char>) -> bool {
    exists|i: int|
        0 <= i < patterns.len() && glob_valid(#[trigger] patterns[i]) && glob_matches(
            patterns[i],
            text,
        )
}

/// Whether every one of the patterns compiles.
pub open spec fn all_globs_valid(patterns: Seq<Seq<char>>) -> bool {
    forall|i: int| 0 <= i < patterns.len() ==> glob_valid(#[trigger] patterns[i])
}

/// Whether the pattern at `index` is the first that does not compile.
pub open spec fn first_invalid_at(patterns: Seq<Seq<char>>, index: int) -> bool {
    &&& 0 <= index < patterns.len()
    &&& !glob_valid(patterns[index])
    &&& forall|earlier: int| 0 <= earlier < index ==> glob_valid(#[trigger] patterns[earlier])
}

/// The place of the first pattern that does not compile; only meaningful
/// where there is one.
pub open spec fn first_invalid(patterns: Seq<Seq<char>>) -> int {
    choose|index: int| first_invalid_at(patterns, index)
}

/// There is only one first pattern that does not compile.
pub proof fn lemma_first_invalid(patterns: Seq<Seq<char>>, index: int)
    requires
        first_invalid_at(patterns, index),
    ensures
        first_invalid(patterns) == index,
{
    let chosen = first_invalid(patterns);
    assert(first_invalid_at(patterns, chosen));
    if chosen < index {
        assert(glob_valid(patterns[chosen]));
    } else if chosen > index {
        assert(glob_valid(patterns[index]));
    }
}

/// What is said of a pattern that does not compile; `role` says what the
/// pattern is for.
pub open spec fn invalid_pattern_message(
    role: Seq<char>,
    pattern: Seq<char>,
    error: Seq<char>,
) -> Seq<char> {
    "Invalid "@ + role + " pattern '"@ + pattern + "': "@ + error
}

/// What is said of a list of patterns of which one does not compile: the
/// first such pattern is named, with its error.
pub open spec fn refusal(role: Seq<char>, patterns: Seq<Seq<char>>) -> Seq<char> {
    let pattern = patterns[first_invalid(patterns)];
    invalid_pattern_message(role, pattern, glob_error_of(pattern).unwrap())
}

/// Calls `glob::Pattern::new` and hands back the text of the error, if the
/// pattern does not compile.
#[verifier::external_body]
pub(crate) fn glob_error(pattern: &str) -> (error: Option<String>)
    ensures
        error is Some <==> glob_error_of(pattern@) is Some,
        error matches Some(text) ==> glob_error_of(pattern@) == Some(text@),
{
    match glob::Pattern::new(pattern) {
        Ok(_) => None,
        Err(error) => Some(error.to_string()),
    }
}

/// Calls `glob::Pattern::matches` on the pattern compiled from `pattern`, with
/// the crate's default match options; a pattern that does not compile matches
/// nothing.
#[verifier::external_body]
pub(crate) fn glob_match(pattern: &str, text: &str) -> (matched: bool)
    ensures
        matched == (glob_valid(pattern@) && glob_matches(pattern@, text@)),
{
    match glob::Pattern::new(pattern) {
        Ok(compiled) => compiled.matches(text),
        Err(_) => false,
    }
}

/// Checks that every pattern compiles. If one does not, the first such
/// pattern is refused with a message that names it, its role and its error.
pub fn check_globs(patterns: &Vec<String>, role: &str) -> (checked: Result<(), String>)
    ensures
        checked is Ok <==> all_globs_valid(crate::model::texts(patterns@)),
        checked matches Err(message) ==> message@ == refusal(
            role@,
            crate::model::texts(patterns@),
        ),
{
    let ghost given = crate::model::texts(patterns@);
    let mut i: usize = 0;
    while i < patterns.len()
        invariant
            i <= patterns.len(),
            given == crate::model::texts(patterns@),
            forall|earlier: int| 0 <= earlier < i ==> glob_valid(#[trigger] given[earlier]),
        decreases patterns.len() - i,
    {
        match glob_error(patterns[i].as_str()) {
            Some(error) => {
                let mut message = String::from_str("Invalid ");
                message.append(role);
                message.append(" pattern '");
                message.append(patterns[i].as_str());
                message.append("': ");
                message.append(error.as_str());
                proof {
                    assert(!glob_valid(given[i as int]));
                    lemma_first_invalid(given, i as int);
                    assert(message@ =~= refusal(role@, given));
                }
                return Err(message);
            },
            None => {},
        }
        i = i + 1;
    }
    Ok(())
}

/// Whether one of the patterns compiles and matches the text.
pub fn matches_any(patterns: &Vec<String>, text: &str) -> (matched: bool)
    ensures
        matched == any_glob_matches(crate::model::texts(patterns@), text@),
{
    let ghost all = crate::model::texts(patterns@);
    let mut i: usize = 0;
    while i < patterns.len()
        invariant
            i <= patterns.len(),
            all == crate::model::texts(patterns@),
            forall|j: int|
                0 <= j < i ==> !(glob_valid(#[trigger] all[j]) && glob_matches(all[j], text@)),
        decreases patterns.len() - i,
    {
        if glob_match(patterns[i].as_str(), text) {
            assert(glob_valid(all[i as int]) && glob_matches(all[i as int], text@));
            return true;
        }
        i = i + 1;
    }
    false
}

} // verus!

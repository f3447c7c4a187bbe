//! The positional matcher and the search driver.
use vstd::prelude::*;
use crate::class::{
    class_outcome, escape_accepts, is_digit, is_word, match_neg_group, match_pos_group,
    parse_class, skip_first, spec_parse_class,
};
use crate::outcome::{MatchResult, Outcome};
use crate::sequence::{lemma_run_length_bounds, match_sequence, sequence_outcome};

verus! {

/// The soft miss of a token that wants one character: past the first
/// character when there is one, a failure when the input is used up.
pub open spec fn soft_miss(input: Seq<char>) -> Outcome {
    if input.len() == 0 {
        Outcome::Failure
    } else {
        Outcome::Remaining(input.skip(1))
    }
}

/// Misses softly on `input_line`.
fn miss_softly<'a>(input_line: &'a str) -> (result: MatchResult<'a>)
    ensures
        result@ == soft_miss(input_line@),
{
    if input_line.is_empty() {
        MatchResult::Failure
    } else {
        MatchResult::Remaining(skip_first(input_line))
    }
}

/// Result of matching `pattern` against `input` at its first character.
///
/// The token at the head of `pattern` decides:
/// - no token left: success;
/// - `\d` or `\w`: on an accepted character go on past it, else fail; any
///   other escape, and a lone `\`, fails;
/// - `[`: fail unless a well-formed class begins here, then test the class;
///   on its success go on past the character and the class, else hand its
///   soft miss on;
/// - `$`: succeed when no input is left, else fail;
/// - a character followed by `+`: consume the whole run of that character
///   and go on after it; with no run, miss softly;
/// - any other character: on an equal character go on past it, else miss
///   softly.
pub open spec fn spec_match_here(input: Seq<char>, pattern: Seq<char>) -> Outcome
    decreases pattern.len(),
{
    if pattern.len() == 0 {
        Outcome::Success
    } else if pattern[0] == '\\' {
        if pattern.len() > 1 && input.len() > 0 && escape_accepts(pattern[1], input[0]) {
            spec_match_here(input.skip(1), pattern.skip(2))
        } else {
            Outcome::Failure
        }
    } else if pattern[0] == '[' {
        match spec_parse_class(pattern) {
            None => Outcome::Failure,
            Some((class, rest)) => match class_outcome(input, class) {
                Outcome::Success => spec_match_here(input.skip(1), rest),
                miss => miss,
            },
        }
    } else if pattern[0] == '$' {
        if input.len() == 0 {
            Outcome::Success
        } else {
            Outcome::Failure
        }
    } else if pattern.len() > 1 && pattern[1] == '+' {
        match sequence_outcome(input, pattern[0]) {
            Outcome::Remaining(run) => spec_match_here(
                input.skip(run.len() as int),
                pattern.skip(2),
            ),
            _ => soft_miss(input),
        }
    } else if input.len() > 0 && input[0] == pattern[0] {
        spec_match_here(input.skip(1), pattern.skip(1))
    } else {
        soft_miss(input)
    }
}

/// A soft miss leaves off at a suffix of the input, and at a proper one
/// whenever the input holds a character.
pub proof fn lemma_remaining_is_suffix(input: Seq<char>, pattern: Seq<char>)
    ensures
        spec_match_here(input, pattern) matches Outcome::Remaining(rest) ==> {
            &&& rest.is_suffix_of(input)
            &&& input.len() > 0 ==> rest.len() < input.len()
        },
    decreases pattern.len(),
{
    if pattern.len() == 0 {
    } else if pattern[0] == '\\' {
        if pattern.len() > 1 && input.len() > 0 && escape_accepts(pattern[1], input[0]) {
            lemma_remaining_is_suffix(input.skip(1), pattern.skip(2));
        }
    } else if pattern[0] == '[' {
        match spec_parse_class(pattern) {
            Some((class, rest)) => {
                if class_outcome(input, class) is Success {
                    lemma_remaining_is_suffix(input.skip(1), rest);
                }
            },
            None => {},
        }
    } else if pattern[0] == '$' {
    } else if pattern.len() > 1 && pattern[1] == '+' {
        lemma_run_length_bounds(input, pattern[0]);
        match sequence_outcome(input, pattern[0]) {
            Outcome::Remaining(run) => {
                lemma_remaining_is_suffix(input.skip(run.len() as int), pattern.skip(2));
            },
            _ => {},
        }
    } else if input.len() > 0 && input[0] == pattern[0] {
        lemma_remaining_is_suffix(input.skip(1), pattern.skip(1));
    }
}

/// Result of the unanchored search: the positional matcher is tried on
/// `input`, then on whatever each soft miss leaves, until it succeeds, fails,
/// or no input is left.
pub open spec fn spec_search(input: Seq<char>, pattern: Seq<char>) -> bool
    decreases input.len(),
    via search_decreases
{
    if input.len() == 0 {
        false
    } else {
        match spec_match_here(input, pattern) {
            Outcome::Success => true,
            Outcome::Failure => false,
            Outcome::Remaining(rest) => spec_search(rest, pattern),
        }
    }
}

/// The search goes on only after a soft miss on an input that holds a
/// character, and such a miss leaves less than it was given.
#[via_fn]
proof fn search_decreases(input: Seq<char>, pattern: Seq<char>) {
    lemma_remaining_is_suffix(input, pattern);
}

/// Whether `pattern` matches `input`.
///
/// A pattern that begins with `^` is tried once, at the start of the input,
/// without the `^`. Any other pattern is searched for.
pub open spec fn spec_match_pattern(input: Seq<char>, pattern: Seq<char>) -> bool {
    if pattern.len() > 0 && pattern[0] == '^' {
        spec_match_here(input, pattern.skip(1)) is Success
    } else {
        spec_search(input, pattern)
    }
}

/// Matches `pattern` against `input_line` at its first character.
///
/// A soft miss hands back the part of `input_line` from which a search may
/// go on: always a suffix of `input_line`, and a shorter one unless
/// `input_line` is empty. The recursion is as deep as the pattern has
/// tokens, whatever the input.
pub fn match_here<'a>(input_line: &'a str, pattern: &str) -> (result: MatchResult<'a>)
    ensures
        result@ == spec_match_here(input_line@, pattern@),
        result matches MatchResult::Remaining(rest) ==> {
            &&& rest@.is_suffix_of(input_line@)
            &&& input_line@.len() > 0 ==> rest@.len() < input_line@.len()
        },
    decreases pattern@.len(),
{
    proof {
        lemma_remaining_is_suffix(input_line@, pattern@);
    }
    let pattern_len: usize = pattern.unicode_len();
    if pattern_len == 0 {
        return MatchResult::Success;
    }
    let head = pattern.get_char(0);
    if head == '\\' {
        if pattern_len > 1 && !input_line.is_empty() {
            let kind = pattern.get_char(1);
            let c = input_line.get_char(0);
            if (kind == 'd' && is_digit(c)) || (kind == 'w' && is_word(c)) {
                return match_here(skip_first(input_line), pattern.substring_char(2, pattern_len));
            }
        }
        MatchResult::Failure
    } else if head == '[' {
        match parse_class(pattern) {
            None => MatchResult::Failure,
            Some((class, rest)) => {
                let tested = if class.negative {
                    match_neg_group(input_line, class.members)
                } else {
                    match_pos_group(input_line, class.members)
                };
                match tested {
                    MatchResult::Success => match_here(skip_first(input_line), rest),
                    miss => miss,
                }
            },
        }
    } else if head == '$' {
        if input_line.is_empty() {
            MatchResult::Success
        } else {
            MatchResult::Failure
        }
    } else if pattern_len > 1 && pattern.get_char(1) == '+' {
        match match_sequence(input_line, head) {
            MatchResult::Remaining(run) => {
                proof {
                    lemma_run_length_bounds(input_line@, head);
                }
                let input_len: usize = input_line.unicode_len();
                let after_run = input_line.substring_char(run.unicode_len(), input_len);
                match_here(after_run, pattern.substring_char(2, pattern_len))
            },
            _ => miss_softly(input_line),
        }
    } else if !input_line.is_empty() && input_line.get_char(0) == head {
        match_here(skip_first(input_line), pattern.substring_char(1, pattern_len))
    } else {
        miss_softly(input_line)
    }
}

/// Tells whether `pattern` matches `input_line`.
///
/// A pattern that begins with `^` is tried at the start of `input_line`
/// only. Any other pattern is tried at the start and then from wherever each
/// soft miss leaves off, until an attempt succeeds, an attempt fails, or
/// `input_line` is used up; an empty `input_line` is not tried at all.
pub fn match_pattern(input_line: &str, pattern: &str) -> (matched: bool)
    ensures
        matched == spec_match_pattern(input_line@, pattern@),
{
    if !pattern.is_empty() && pattern.get_char(0) == '^' {
        let anchored = skip_first(pattern);
        return match match_here(input_line, anchored) {
            MatchResult::Success => true,
            _ => false,
        };
    }
    let mut remaining = input_line;
    while !remaining.is_empty()
        invariant
            spec_search(remaining@, pattern@) == spec_match_pattern(input_line@, pattern@),
        decreases remaining@.len(),
    {
        match match_here(remaining, pattern) {
            MatchResult::Success => {
                return true;
            },
            MatchResult::Failure => {
                return false;
            },
            MatchResult::Remaining(rest) => {
                remaining = rest;
            },
        }
    }
    false
}

} // verus!

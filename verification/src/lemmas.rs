//! What holds of the matcher on every input and every pattern.
//!
//! The lemmas speak of the models `spec_match_here`, `spec_search` and
//! `spec_match_pattern`; the executable functions return what these models
//! say, so each lemma holds of them too.
use vstd::prelude::*;
use crate::class::{
    class_close, class_outcome, class_start, class_well_formed, escape_accepts,
    lemma_next_bracket_is_first, lemma_written_class_parses_back, spec_parse_class, ClassModel,
};
use crate::matcher::{
    lemma_remaining_is_suffix, soft_miss, spec_match_here, spec_match_pattern, spec_search,
};
use crate::outcome::Outcome;
use crate::sequence::sequence_outcome;

verus! {

/// Matching is a function of the characters alone: equal inputs and equal
/// patterns give equal results, at one position and over the whole search.
pub proof fn lemma_match_is_deterministic(
    input_a: Seq<char>,
    pattern_a: Seq<char>,
    input_b: Seq<char>,
    pattern_b: Seq<char>,
)
    requires
        input_a =~= input_b,
        pattern_a =~= pattern_b,
    ensures
        spec_match_here(input_a, pattern_a) == spec_match_here(input_b, pattern_b),
        spec_match_pattern(input_a, pattern_a) == spec_match_pattern(input_b, pattern_b),
{
}

/// On an empty input the positional matcher succeeds only for the empty
/// pattern and for `$`; a well-formed bracket class misses softly and leaves
/// the empty input; everything else fails.
pub proof fn lemma_match_here_on_empty_input(pattern: Seq<char>)
    ensures
        spec_match_here(Seq::empty(), pattern) == (if pattern.len() == 0 || pattern[0] == '$' {
            Outcome::Success
        } else if class_well_formed(pattern) {
            Outcome::Remaining(Seq::empty())
        } else {
            Outcome::Failure
        }),
{
    if pattern.len() > 1 && pattern[0] != '\\' && pattern[0] != '[' && pattern[0] != '$'
        && pattern[1] == '+' {
        assert(sequence_outcome(Seq::<char>::empty(), pattern[0]) is Failure);
    }
}

/// A failure of the positional matcher ends the search at once, whatever the
/// rest of the input holds.
pub proof fn lemma_failure_ends_search(input: Seq<char>, pattern: Seq<char>)
    requires
        spec_match_here(input, pattern) is Failure,
    ensures
        !spec_search(input, pattern),
{
}

/// A search that finds a match is witnessed by a position of the input at
/// which the positional matcher succeeds.
pub proof fn lemma_search_success_has_witness(input: Seq<char>, pattern: Seq<char>)
    requires
        spec_search(input, pattern),
    ensures
        exists|k: int|
            0 <= k < input.len() && spec_match_here(#[trigger] input.skip(k), pattern) is Success,
    decreases input.len(),
{
    match spec_match_here(input, pattern) {
        Outcome::Remaining(rest) => {
            lemma_remaining_is_suffix(input, pattern);
            lemma_search_success_has_witness(rest, pattern);
            let offset = input.len() - rest.len();
            let k = choose|k: int|
                0 <= k < rest.len() && spec_match_here(#[trigger] rest.skip(k), pattern) is Success;
            assert(input.skip(offset + k) =~= rest.skip(k));
        },
        _ => {
            assert(input.skip(0) =~= input);
        },
    }
}

/// A one-character pattern whose character is a plain literal, and not `^`,
/// matches exactly the inputs that hold that character.
pub proof fn lemma_single_literal_matches_iff_contained(input: Seq<char>, c: char)
    requires
        c != '\\',
        c != '[',
        c != '$',
        c != '^',
    ensures
        spec_match_pattern(input, seq![c]) == input.contains(c),
    decreases input.len(),
{
    let pattern = seq![c];
    if input.len() == 0 {
    } else if input[0] == c {
        assert(pattern.skip(1).len() == 0);
        assert(spec_match_here(input.skip(1), pattern.skip(1)) is Success);
    } else {
        let tail = input.skip(1);
        lemma_single_literal_matches_iff_contained(tail, c);
        assert(spec_search(input, pattern) == spec_search(tail, pattern));
        if tail.contains(c) {
            let i = choose|i: int| 0 <= i < tail.len() && tail[i] == c;
            assert(input[i + 1] == c);
        }
        if input.contains(c) {
            let i = choose|i: int| 0 <= i < input.len() && input[i] == c;
            assert(tail[i - 1] == c);
        }
    }
}

/// A one-or-more pattern on a plain literal, with nothing else, matches
/// exactly the inputs that hold that literal.
pub proof fn lemma_one_or_more_matches_iff_contained(input: Seq<char>, c: char)
    requires
        c != '\\',
        c != '[',
        c != '$',
        c != '^',
    ensures
        spec_match_pattern(input, seq![c, '+']) == input.contains(c),
    decreases input.len(),
{
    let pattern = seq![c, '+'];
    if input.len() == 0 {
    } else if input[0] == c {
        assert(pattern.skip(2).len() == 0);
        assert(sequence_outcome(input, c) is Remaining);
        let run = sequence_outcome(input, c)->Remaining_0;
        assert(spec_match_here(input.skip(run.len() as int), pattern.skip(2)) is Success);
    } else {
        let tail = input.skip(1);
        lemma_one_or_more_matches_iff_contained(tail, c);
        assert(sequence_outcome(input, c) is Failure);
        assert(spec_search(input, pattern) == spec_search(tail, pattern));
        if tail.contains(c) {
            let i = choose|i: int| 0 <= i < tail.len() && tail[i] == c;
            assert(input[i + 1] == c);
        }
        if input.contains(c) {
            let i = choose|i: int| 0 <= i < input.len() && input[i] == c;
            assert(tail[i - 1] == c);
        }
    }
}

/// A bracket class, with nothing else, matches exactly the inputs that hold
/// a character the class accepts.
pub proof fn lemma_single_class_matches_iff_accepted(input: Seq<char>, class: ClassModel)
    requires
        class.writable(),
    ensures
        spec_match_pattern(input, class.text()) <==> exists|i: int|
            0 <= i < input.len() && class.accepts(#[trigger] input[i]),
    decreases input.len(),
{
    let pattern = class.text();
    assert(pattern =~= pattern + Seq::<char>::empty());
    lemma_written_class_parses_back(class, Seq::empty());
    assert(pattern[0] == '[');
    if input.len() == 0 {
    } else if class.accepts(input[0]) {
        assert(spec_match_here(input.skip(1), Seq::empty()) is Success);
    } else {
        let tail = input.skip(1);
        lemma_single_class_matches_iff_accepted(tail, class);
        assert(spec_search(input, pattern) == spec_search(tail, pattern));
        if exists|i: int| 0 <= i < tail.len() && class.accepts(#[trigger] tail[i]) {
            let i = choose|i: int| 0 <= i < tail.len() && class.accepts(#[trigger] tail[i]);
            assert(class.accepts(input[i + 1]));
        }
        if exists|i: int| 0 <= i < input.len() && class.accepts(#[trigger] input[i]) {
            let i = choose|i: int| 0 <= i < input.len() && class.accepts(#[trigger] input[i]);
            assert(class.accepts(tail[i - 1]));
        }
    }
}

/// An escape class, with nothing else, matches exactly the inputs whose
/// first character it accepts: a miss there is a failure, and the search
/// goes no further.
pub proof fn lemma_single_escape_matches_iff_first_accepted(input: Seq<char>, kind: char)
    ensures
        spec_match_pattern(input, seq!['\\', kind]) <==> input.len() > 0 && escape_accepts(
            kind,
            input[0],
        ),
{
    let pattern = seq!['\\', kind];
    if input.len() > 0 && escape_accepts(kind, input[0]) {
        assert(pattern.skip(2).len() == 0);
        assert(spec_match_here(input.skip(1), pattern.skip(2)) is Success);
    }
}

/// Whether `pattern` is made of plain characters alone: none of `\`, `[`,
/// `$` and `+`, so that every character of it is a literal token.
pub open spec fn is_plain_pattern(pattern: Seq<char>) -> bool {
    forall|i: int|
        0 <= i < pattern.len() ==> {
            &&& pattern[i] != '\\'
            &&& pattern[i] != '['
            &&& pattern[i] != '$'
            &&& pattern[i] != '+'
        }
}

/// A plain pattern stays plain without its first character.
proof fn lemma_plain_pattern_tail(pattern: Seq<char>)
    requires
        is_plain_pattern(pattern),
        pattern.len() > 0,
    ensures
        is_plain_pattern(pattern.skip(1)),
{
    let rest = pattern.skip(1);
    assert forall|i: int| 0 <= i < rest.len() implies {
        &&& rest[i] != '\\'
        &&& rest[i] != '['
        &&& rest[i] != '$'
        &&& rest[i] != '+'
    } by {
        assert(rest[i] == pattern[i + 1]);
    }
}

/// On a pattern of plain characters the positional matcher succeeds exactly
/// when the input begins with the pattern.
pub proof fn lemma_plain_pattern_succeeds_iff_prefix(input: Seq<char>, pattern: Seq<char>)
    requires
        is_plain_pattern(pattern),
    ensures
        spec_match_here(input, pattern) is Success <==> pattern.is_prefix_of(input),
    decreases pattern.len(),
{
    if pattern.len() > 0 {
        let rest = pattern.skip(1);
        lemma_plain_pattern_tail(pattern);
        if input.len() > 0 && input[0] == pattern[0] {
            let tail = input.skip(1);
            lemma_plain_pattern_succeeds_iff_prefix(tail, rest);
            if rest.is_prefix_of(tail) {
                assert forall|i: int| 0 <= i < pattern.len() implies pattern[i] == input[i] by {
                    if i > 0 {
                        assert(rest[i - 1] == tail.subrange(0, rest.len() as int)[i - 1]);
                    }
                }
                assert(pattern =~= input.subrange(0, pattern.len() as int));
            }
            if pattern.is_prefix_of(input) {
                assert forall|i: int| 0 <= i < rest.len() implies rest[i] == tail[i] by {
                    assert(pattern[i + 1] == input.subrange(0, pattern.len() as int)[i + 1]);
                }
                assert(rest =~= tail.subrange(0, rest.len() as int));
            }
        } else if pattern.is_prefix_of(input) {
            assert(pattern[0] == input.subrange(0, pattern.len() as int)[0]);
        }
    }
}

/// On a pattern of plain characters followed by `$` the positional matcher
/// succeeds exactly when the input is those characters.
pub proof fn lemma_plain_pattern_before_end_anchor(input: Seq<char>, pattern: Seq<char>)
    requires
        is_plain_pattern(pattern),
    ensures
        spec_match_here(input, pattern + seq!['$']) is Success <==> input == pattern,
    decreases pattern.len(),
{
    let whole = pattern + seq!['$'];
    if pattern.len() == 0 {
        assert(whole[0] == '$');
        assert(input.len() == 0 <==> input =~= pattern);
    } else {
        let rest = pattern.skip(1);
        lemma_plain_pattern_tail(pattern);
        assert(whole[0] == pattern[0]);
        assert(whole[1] == if pattern.len() > 1 { pattern[1] } else { '$' });
        assert(whole.skip(1) =~= rest + seq!['$']);
        if input.len() > 0 && input[0] == pattern[0] {
            let tail = input.skip(1);
            lemma_plain_pattern_before_end_anchor(tail, rest);
            if tail == rest {
                assert forall|i: int| 0 <= i < input.len() implies input[i] == pattern[i] by {
                    if i > 0 {
                        assert(input[i] == tail[i - 1]);
                        assert(pattern[i] == rest[i - 1]);
                    }
                }
                assert(input =~= pattern);
            }
            if input == pattern {
                assert(tail =~= rest);
            }
        }
    }
}

/// A pattern of plain characters behind a `^` matches exactly the inputs
/// that begin with those characters.
pub proof fn lemma_anchored_plain_pattern_matches_iff_prefix(
    input: Seq<char>,
    pattern: Seq<char>,
)
    requires
        is_plain_pattern(pattern),
    ensures
        spec_match_pattern(input, seq!['^'] + pattern) <==> pattern.is_prefix_of(input),
{
    assert((seq!['^'] + pattern).skip(1) =~= pattern);
    lemma_plain_pattern_succeeds_iff_prefix(input, pattern);
}

/// A pattern of plain characters between `^` and `$` matches exactly one
/// input: those characters.
pub proof fn lemma_fully_anchored_plain_pattern_matches_iff_equal(
    input: Seq<char>,
    pattern: Seq<char>,
)
    requires
        is_plain_pattern(pattern),
    ensures
        spec_match_pattern(input, seq!['^'] + pattern + seq!['$']) <==> input == pattern,
{
    assert((seq!['^'] + pattern + seq!['$']).skip(1) =~= pattern + seq!['$']);
    lemma_plain_pattern_before_end_anchor(input, pattern);
}

/// Whether `pattern` begins with a plain literal token: a character that is
/// neither `\`, `[` nor `$`, and that no `+` follows.
pub open spec fn starts_with_plain_literal(pattern: Seq<char>) -> bool {
    &&& pattern.len() > 0
    &&& pattern[0] != '\\'
    &&& pattern[0] != '['
    &&& pattern[0] != '$'
    &&& !(pattern.len() > 1 && pattern[1] == '+')
}

/// A pattern that begins with a plain literal never matches an input that
/// does not hold that literal: every position misses softly, the last one
/// leaves nothing, and the search ends there.
pub proof fn lemma_absent_literal_never_matches(input: Seq<char>, pattern: Seq<char>)
    requires
        starts_with_plain_literal(pattern),
        !input.contains(pattern[0]),
    ensures
        !spec_search(input, pattern),
        pattern[0] != '^' ==> !spec_match_pattern(input, pattern),
    decreases input.len(),
{
    if input.len() > 0 {
        let tail = input.skip(1);
        assert(input[0] != pattern[0]);
        assert forall|i: int| 0 <= i < tail.len() implies tail[i] != pattern[0] by {
            assert(tail[i] == input[i + 1]);
        }
        lemma_absent_literal_never_matches(tail, pattern);
    }
}

/// A plain literal that the last character of the input does not satisfy
/// misses softly there and leaves the empty rest of the input, so that the
/// search from that character ends without a match.
pub proof fn lemma_literal_miss_on_last_char(input: Seq<char>, pattern: Seq<char>)
    requires
        input.len() > 0,
        starts_with_plain_literal(pattern),
        input.last() != pattern[0],
    ensures
        spec_match_here(input.skip(input.len() - 1), pattern) == Outcome::Remaining(
            input.skip(input.len() as int),
        ),
        input.skip(input.len() as int).len() == 0,
        !spec_search(input.skip(input.len() - 1), pattern),
{
    let last = input.skip(input.len() - 1);
    assert(last.len() == 1);
    assert(last[0] == input.last());
    assert(last.skip(1) =~= input.skip(input.len() as int));
    assert(spec_match_here(last, pattern) == soft_miss(last));
    assert(!spec_search(last.skip(1), pattern));
}

/// The positional matcher fails on every input when the bracket class at
/// the head of the pattern is malformed, and the search with it.
pub proof fn lemma_malformed_class_fails(input: Seq<char>, pattern: Seq<char>)
    requires
        pattern.len() > 0,
        pattern[0] == '[',
        !class_well_formed(pattern),
    ensures
        spec_match_here(input, pattern) is Failure,
        !spec_match_pattern(input, pattern),
{
}

/// The positional matcher never succeeds on a pattern that holds a malformed
/// bracket class with no `$` before it: no attempt gets past that class.
pub proof fn lemma_malformed_class_blocks_success(
    input: Seq<char>,
    pattern: Seq<char>,
    at: int,
)
    requires
        0 <= at < pattern.len(),
        pattern[at] == '[',
        !class_well_formed(pattern.skip(at)),
        forall|j: int| 0 <= j < at ==> pattern[j] != '$',
    ensures
        !(spec_match_here(input, pattern) is Success),
    decreases pattern.len(),
{
    if at == 0 {
        assert(pattern.skip(0) =~= pattern);
    } else if pattern[0] == '\\' {
        if pattern.len() > 1 && input.len() > 0 && escape_accepts(pattern[1], input[0]) {
            lemma_blocked_after(input.skip(1), pattern, at, 2);
        }
    } else if pattern[0] == '[' {
        if class_well_formed(pattern) {
            let close = class_close(pattern);
            let (class, rest) = spec_parse_class(pattern)->0;
            lemma_next_bracket_is_first(pattern, class_start(pattern));
            assert(at > close);
            if class_outcome(input, class) is Success {
                lemma_blocked_after(input.skip(1), pattern, at, close + 1);
            }
        }
    } else if pattern.len() > 1 && pattern[1] == '+' {
        match sequence_outcome(input, pattern[0]) {
            Outcome::Remaining(run) => {
                lemma_blocked_after(input.skip(run.len() as int), pattern, at, 2);
            },
            _ => {},
        }
    } else if input.len() > 0 && input[0] == pattern[0] {
        lemma_blocked_after(input.skip(1), pattern, at, 1);
    }
}

/// The step of `lemma_malformed_class_blocks_success`: the same holds of
/// `pattern` without its first `taken` characters, when the class lies after
/// them.
proof fn lemma_blocked_after(input: Seq<char>, pattern: Seq<char>, at: int, taken: int)
    requires
        0 < taken <= at < pattern.len(),
        pattern[at] == '[',
        !class_well_formed(pattern.skip(at)),
        forall|j: int| 0 <= j < at ==> pattern[j] != '$',
    ensures
        !(spec_match_here(input, pattern.skip(taken)) is Success),
    decreases pattern.len(), 0int,
{
    let rest = pattern.skip(taken);
    assert(rest.skip(at - taken) =~= pattern.skip(at));
    assert forall|j: int| 0 <= j < at - taken implies rest[j] != '$' by {
        assert(rest[j] == pattern[j + taken]);
    }
    lemma_malformed_class_blocks_success(input, rest, at - taken);
}

/// The search never finds a match for a pattern that holds a malformed
/// bracket class with no `$` before it.
proof fn lemma_malformed_class_blocks_search(input: Seq<char>, pattern: Seq<char>, at: int)
    requires
        0 <= at < pattern.len(),
        pattern[at] == '[',
        !class_well_formed(pattern.skip(at)),
        forall|j: int| 0 <= j < at ==> pattern[j] != '$',
    ensures
        !spec_search(input, pattern),
    decreases input.len(),
{
    if input.len() > 0 {
        lemma_malformed_class_blocks_success(input, pattern, at);
        lemma_remaining_is_suffix(input, pattern);
        match spec_match_here(input, pattern) {
            Outcome::Remaining(rest) => {
                lemma_malformed_class_blocks_search(rest, pattern, at);
            },
            _ => {},
        }
    }
}

/// A pattern that holds a malformed bracket class with no `$` before it
/// matches no input.
///
/// A `$` before the class is left out because it ends the pattern: `^$[`
/// matches the empty input, for the attempt succeeds at the `$` and never
/// comes to the bracket.
pub proof fn lemma_malformed_class_never_matches(input: Seq<char>, pattern: Seq<char>, at: int)
    requires
        0 <= at < pattern.len(),
        pattern[at] == '[',
        !class_well_formed(pattern.skip(at)),
        forall|j: int| 0 <= j < at ==> pattern[j] != '$',
    ensures
        !spec_match_pattern(input, pattern),
{
    if pattern[0] == '^' {
        lemma_blocked_after(input, pattern, at, 1);
    } else {
        lemma_malformed_class_blocks_search(input, pattern, at);
    }
}

/// A pattern with an opening bracket that no closing bracket follows, and
/// with no `$` before that bracket, matches no input.
pub proof fn lemma_unclosed_bracket_never_matches(input: Seq<char>, pattern: Seq<char>, at: int)
    requires
        0 <= at < pattern.len(),
        pattern[at] == '[',
        forall|j: int| at < j < pattern.len() ==> pattern[j] != ']',
        forall|j: int| 0 <= j < at ==> pattern[j] != '$',
    ensures
        !spec_match_pattern(input, pattern),
{
    let tail = pattern.skip(at);
    if class_well_formed(tail) {
        let close = class_close(tail);
        assert(tail[close] == pattern[at + close]);
    }
    lemma_malformed_class_never_matches(input, pattern, at);
}

} // verus!

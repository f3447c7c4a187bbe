//! The one-or-more quantifier: a greedy run of one character.
use vstd::prelude::*;
use crate::outcome::{MatchResult, Outcome};

verus! {

/// Number of consecutive occurrences of `c` at the start of `input`.
pub open spec fn run_length(input: Seq<char>, c: char) -> nat
    decreases input.len(),
{
    if input.len() > 0 && input[0] == c {
        1 + run_length(input.skip(1), c)
    } else {
        0
    }
}

/// Result of matching one or more `c` at the start of `input`: a failure when
/// the input does not begin with `c`, else the longest prefix of `input` that
/// holds nothing but `c`.
pub open spec fn sequence_outcome(input: Seq<char>, c: char) -> Outcome {
    if run_length(input, c) == 0 {
        Outcome::Failure
    } else {
        Outcome::Remaining(input.take(run_length(input, c) as int))
    }
}

/// The run counted by `run_length` lies within `input`, holds nothing but
/// `c`, and is not followed by another `c`.
pub proof fn lemma_run_length_bounds(input: Seq<char>, c: char)
    ensures
        run_length(input, c) <= input.len(),
        forall|i: int| 0 <= i < run_length(input, c) ==> input[i] == c,
        run_length(input, c) == input.len() || input[run_length(input, c) as int] != c,
    decreases input.len(),
{
    if input.len() > 0 && input[0] == c {
        let tail = input.skip(1);
        lemma_run_length_bounds(tail, c);
        assert forall|i: int| 0 <= i < run_length(input, c) implies input[i] == c by {
            if i > 0 {
                assert(input[i] == tail[i - 1]);
            }
        }
        if run_length(input, c) < input.len() {
            assert(input[run_length(input, c) as int] == tail[run_length(tail, c) as int]);
        }
    }
}

/// `run_length` is the one length `n` for which the first `n` characters of
/// `input` are all `c` and the character after them, if any, is not.
pub proof fn lemma_run_length_unique(input: Seq<char>, c: char, n: int)
    requires
        0 <= n <= input.len(),
        forall|i: int| 0 <= i < n ==> input[i] == c,
        n == input.len() || input[n] != c,
    ensures
        run_length(input, c) == n,
    decreases input.len(),
{
    if n > 0 {
        let tail = input.skip(1);
        assert forall|i: int| 0 <= i < n - 1 implies tail[i] == c by {
            assert(tail[i] == input[i + 1]);
        }
        lemma_run_length_unique(tail, c, n - 1);
    }
}

/// Counts the occurrences of `c` that `input_line` begins with.
fn leading_run(input_line: &str, c: char) -> (end: usize)
    ensures
        end == run_length(input_line@, c),
{
    let len: usize = input_line.unicode_len();
    let mut end: usize = 0;
    for member in it: input_line.chars()
        invariant
            it.seq() == input_line@,
            end == it.index(),
            len == input_line@.len(),
            forall|i: int| 0 <= i < end ==> input_line@[i] == c,
    {
        if member != c {
            proof {
                lemma_run_length_unique(input_line@, c, end as int);
            }
            return end;
        }
        end = end + 1;
    }
    proof {
        lemma_run_length_unique(input_line@, c, end as int);
    }
    end
}

/// Matches one or more `c` at the start of `input_line`, as many as there are.
///
/// The result is `Failure` when `input_line` does not begin with `c`, else
/// `Remaining` holding the run that was consumed: the longest prefix of
/// `input_line` that holds nothing but `c`.
pub fn match_sequence<'a>(input_line: &'a str, c: char) -> (result: MatchResult<'a>)
    ensures
        result@ == sequence_outcome(input_line@, c),
        result is Failure <==> input_line@.len() == 0 || input_line@[0] != c,
        result matches MatchResult::Remaining(run) ==> {
            &&& run@.is_prefix_of(input_line@)
            &&& forall|i: int| 0 <= i < run@.len() ==> run@[i] == c
            &&& run@.len() == input_line@.len() || input_line@[run@.len() as int] != c
        },
{
    proof {
        lemma_run_length_bounds(input_line@, c);
    }
    let end: usize = leading_run(input_line, c);
    if end == 0 {
        MatchResult::Failure
    } else {
        MatchResult::Remaining(input_line.substring_char(0, end))
    }
}

} // verus!

//! Character classes: the escape classes `\d` and `\w`, and bracket classes.
use vstd::prelude::*;
use crate::outcome::{MatchResult, Outcome};

verus! {

/// `c` is one of the ten ASCII digits.
pub open spec fn spec_is_digit(c: char) -> bool {
    '0' <= c <= '9'
}

/// `c` is an ASCII letter or an ASCII digit.
pub open spec fn spec_is_word(c: char) -> bool {
    spec_is_digit(c) || 'a' <= c <= 'z' || 'A' <= c <= 'Z'
}

/// Tells whether `c` belongs to the class `\d`.
#[verifier::when_used_as_spec(spec_is_digit)]
pub fn is_digit(c: char) -> (accepted: bool)
    ensures
        accepted == spec_is_digit(c),
{
    '0' <= c && c <= '9'
}

/// Tells whether `c` belongs to the class `\w`.
#[verifier::when_used_as_spec(spec_is_word)]
pub fn is_word(c: char) -> (accepted: bool)
    ensures
        accepted == spec_is_word(c),
{
    is_digit(c) || ('a' <= c && c <= 'z') || ('A' <= c && c <= 'Z')
}

/// Whether the escape `\kind` accepts the character `c`. Only `\d` and `\w`
/// are escapes; every other `kind` accepts nothing.
pub open spec fn escape_accepts(kind: char, c: char) -> bool {
    (kind == 'd' && spec_is_digit(c)) || (kind == 'w' && spec_is_word(c))
}

/// Mathematical model of a bracket class: the characters it lists and its
/// polarity.
pub struct ClassModel {
    /// The characters listed between the brackets.
    pub members: Seq<char>,
    /// `true` for a class that accepts what it does not list.
    pub negative: bool,
}

impl ClassModel {
    /// Whether the class accepts `c`: a positive class accepts its members,
    /// a negative class everything else.
    pub open spec fn accepts(self, c: char) -> bool {
        self.members.contains(c) != self.negative
    }

    /// Whether the class can be written in a pattern: it lists at least one
    /// character, lists no bracket, and, when positive, does not list `^`
    /// first (a `^` there would be read as the polarity mark).
    pub open spec fn writable(self) -> bool {
        &&& self.members.len() > 0
        &&& forall|i: int|
            0 <= i < self.members.len() ==> self.members[i] != '[' && self.members[i] != ']'
        &&& !self.negative ==> self.members[0] != '^'
    }

    /// The class as it is written in a pattern: `[`, a `^` when it is
    /// negative, its members, `]`.
    pub open spec fn text(self) -> Seq<char> {
        let mark = if self.negative {
            seq!['^']
        } else {
            Seq::empty()
        };
        seq!['['] + mark + self.members + seq![']']
    }
}

/// A bracket class: its member characters and its polarity.
#[derive(Debug, Clone, Copy, PartialEq, Eq)]
pub struct CharClass<'a> {
    /// The characters listed between the brackets.
    pub members: &'a str,
    /// `true` for `[^...]`, which accepts what is not listed.
    pub negative: bool,
}

impl<'a> View for CharClass<'a> {
    type V = ClassModel;

    open spec fn view(&self) -> ClassModel {
        ClassModel { members: self.members@, negative: self.negative }
    }
}

/// Result of testing the first character of `input` against a bracket class.
///
/// With no character left the class misses softly and leaves the input as it
/// is; an accepted character is a success; a rejected one is a soft miss past
/// that character.
pub open spec fn class_outcome(input: Seq<char>, class: ClassModel) -> Outcome {
    if input.len() == 0 {
        Outcome::Remaining(input)
    } else if class.accepts(input[0]) {
        Outcome::Success
    } else {
        Outcome::Remaining(input.skip(1))
    }
}

/// Tells whether `c` occurs in `group`.
fn group_contains(group: &str, c: char) -> (found: bool)
    ensures
        found == group@.contains(c),
{
    for member in it: group.chars()
        invariant
            it.seq() == group@,
            forall|j: int| 0 <= j < it.index() ==> group@[j] != c,
    {
        if member == c {
            return true;
        }
    }
    false
}

/// The input without its first character.
pub(crate) fn skip_first<'a>(input_line: &'a str) -> (rest: &'a str)
    requires
        input_line@.len() > 0,
    ensures
        rest@ == input_line@.skip(1),
{
    let len: usize = input_line.unicode_len();
    input_line.substring_char(1, len)
}

/// Tests the first character of `input_line` against the positive class whose
/// members are the characters of `group`.
pub fn match_pos_group<'a>(input_line: &'a str, group: &str) -> (result: MatchResult<'a>)
    ensures
        result@ == class_outcome(input_line@, (ClassModel { members: group@, negative: false })),
{
    if input_line.is_empty() {
        return MatchResult::Remaining(input_line);
    }
    if group_contains(group, input_line.get_char(0)) {
        MatchResult::Success
    } else {
        MatchResult::Remaining(skip_first(input_line))
    }
}

/// Tests the first character of `input_line` against the negative class whose
/// members are the characters of `group`.
pub fn match_neg_group<'a>(input_line: &'a str, group: &str) -> (result: MatchResult<'a>)
    ensures
        result@ == class_outcome(input_line@, (ClassModel { members: group@, negative: true })),
{
    if input_line.is_empty() {
        return MatchResult::Remaining(input_line);
    }
    if group_contains(group, input_line.get_char(0)) {
        MatchResult::Remaining(skip_first(input_line))
    } else {
        MatchResult::Success
    }
}

/// Position of the first `[` or `]` at or after `from`, or the length of
/// `pattern` when neither occurs there.
pub open spec fn next_bracket(pattern: Seq<char>, from: int) -> int
    decreases pattern.len() - from,
{
    if from >= pattern.len() {
        pattern.len() as int
    } else if pattern[from] == '[' || pattern[from] == ']' {
        from
    } else {
        next_bracket(pattern, from + 1)
    }
}

/// `next_bracket` lies between `from` and the end of `pattern`, no bracket
/// comes before it, and it holds a bracket unless it is the end.
pub proof fn lemma_next_bracket_is_first(pattern: Seq<char>, from: int)
    requires
        0 <= from <= pattern.len(),
    ensures
        from <= next_bracket(pattern, from) <= pattern.len(),
        forall|k: int|
            from <= k < next_bracket(pattern, from) ==> pattern[k] != '[' && pattern[k] != ']',
        next_bracket(pattern, from) < pattern.len() ==> {
            ||| pattern[next_bracket(pattern, from)] == '['
            ||| pattern[next_bracket(pattern, from)] == ']'
        },
    decreases pattern.len() - from,
{
    if from < pattern.len() && pattern[from] != '[' && pattern[from] != ']' {
        lemma_next_bracket_is_first(pattern, from + 1);
    }
}

/// A position that holds a bracket, with no bracket between `from` and it,
/// is `next_bracket`.
pub proof fn lemma_next_bracket_unique(pattern: Seq<char>, from: int, at: int)
    requires
        0 <= from <= at < pattern.len(),
        forall|k: int| from <= k < at ==> pattern[k] != '[' && pattern[k] != ']',
        pattern[at] == '[' || pattern[at] == ']',
    ensures
        next_bracket(pattern, from) == at,
    decreases at - from,
{
    if from < at {
        lemma_next_bracket_unique(pattern, from + 1, at);
    }
}

/// Whether the bracket class at the head of `pattern` is negative: a `^`
/// directly after the opening bracket.
pub open spec fn class_negated(pattern: Seq<char>) -> bool {
    pattern.len() > 1 && pattern[1] == '^'
}

/// Position of the first member of the bracket class at the head of `pattern`.
pub open spec fn class_start(pattern: Seq<char>) -> int {
    if class_negated(pattern) {
        2
    } else {
        1
    }
}

/// Position at which the scan of the bracket class at the head of `pattern`
/// stops: the first bracket after the opening one and its polarity mark.
///
/// Between the brackets no character is special but the brackets themselves:
/// a backslash there is a member like any other.
pub open spec fn class_close(pattern: Seq<char>) -> int {
    next_bracket(pattern, class_start(pattern))
}

/// Whether `pattern` begins with a well-formed bracket class: an opening
/// bracket, an optional `^`, at least one member, and a closing bracket that
/// comes before any further opening bracket.
pub open spec fn class_well_formed(pattern: Seq<char>) -> bool {
    &&& pattern.len() > 0
    &&& pattern[0] == '['
    &&& class_start(pattern) < class_close(pattern) < pattern.len()
    &&& pattern[class_close(pattern)] == ']'
}

/// The bracket class at the head of `pattern` and what is left of `pattern`
/// after it, or `None` when `pattern` does not begin with a well-formed
/// class.
pub open spec fn spec_parse_class(pattern: Seq<char>) -> Option<(ClassModel, Seq<char>)> {
    if class_well_formed(pattern) {
        Some(
            (
                ClassModel {
                    members: pattern.subrange(class_start(pattern), class_close(pattern)),
                    negative: class_negated(pattern),
                },
                pattern.skip(class_close(pattern) + 1),
            ),
        )
    } else {
        None
    }
}

/// A pattern that begins with a well-formed class is the text of that class
/// followed by the rest, and the class is one that can be written.
pub proof fn lemma_parsed_class_splits_pattern(pattern: Seq<char>)
    requires
        spec_parse_class(pattern) is Some,
    ensures
        ({
            let (class, rest) = spec_parse_class(pattern)->0;
            &&& class.writable()
            &&& pattern == class.text() + rest
        }),
{
    let (class, rest) = spec_parse_class(pattern)->0;
    lemma_next_bracket_is_first(pattern, class_start(pattern));
    assert(pattern =~= class.text() + rest);
}

/// Reading back the text of a class that can be written gives that class,
/// and leaves whatever followed the text.
pub proof fn lemma_written_class_parses_back(class: ClassModel, rest: Seq<char>)
    requires
        class.writable(),
    ensures
        spec_parse_class(class.text() + rest) == Some((class, rest)),
{
    let pattern = class.text() + rest;
    let start: int = if class.negative { 2 } else { 1 };
    let close = start + class.members.len();
    assert(pattern[0] == '[');
    assert(pattern[start] == class.members[0]);
    assert(class_negated(pattern) == class.negative);
    assert forall|k: int| start <= k < close implies pattern[k] != '[' && pattern[k] != ']' by {
        assert(pattern[k] == class.members[k - start]);
    }
    assert(pattern[close] == ']');
    lemma_next_bracket_unique(pattern, start, close);
    assert(pattern.subrange(start, close) =~= class.members);
    assert(pattern.skip(close + 1) =~= rest);
}

/// Reads the bracket class at the head of `pattern`.
///
/// Returns the class and the pattern after its closing bracket, or `None`
/// when `pattern` does not begin with a well-formed class: no opening
/// bracket, no closing bracket, a second opening bracket before the closing
/// one, or no member at all. What is returned splits `pattern`: the text of
/// the class, then the rest.
pub fn parse_class<'a>(pattern: &'a str) -> (parsed: Option<(CharClass<'a>, &'a str)>)
    ensures
        match parsed {
            Some((class, rest)) => spec_parse_class(pattern@) == Some((class@, rest@)),
            None => spec_parse_class(pattern@) is None,
        },
        parsed matches Some((class, rest)) ==> {
            &&& class@.writable()
            &&& pattern@ == class@.text() + rest@
        },
{
    let len: usize = pattern.unicode_len();
    if len == 0 || pattern.get_char(0) != '[' {
        return None;
    }
    let negative = len > 1 && pattern.get_char(1) == '^';
    let start: usize = if negative { 2 } else { 1 };
    let mut at: usize = 0;
    for c in it: pattern.chars()
        invariant
            it.seq() == pattern@,
            at == it.index(),
            0 < len == pattern@.len(),
            start == class_start(pattern@),
            negative == class_negated(pattern@),
            pattern@[0] == '[',
            at > start ==> class_close(pattern@) == next_bracket(pattern@, at as int),
    {
        if at >= start {
            if c == '[' {
                return None;
            }
            if c == ']' {
                if at == start {
                    return None;
                }
                proof {
                    lemma_parsed_class_splits_pattern(pattern@);
                }
                let class = CharClass { members: pattern.substring_char(start, at), negative };
                return Some((class, pattern.substring_char(at + 1, len)));
            }
        }
        at = at + 1;
    }
    None
}

} // verus!

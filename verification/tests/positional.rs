use mini_regex::{match_here, MatchResult};

#[test]
fn empty_pattern_succeeds() {
    assert_eq!(match_here("abc", ""), MatchResult::Success);
    assert_eq!(match_here("", ""), MatchResult::Success);
}

#[test]
fn literal_match_goes_on_with_the_rest() {
    assert_eq!(match_here("abc", "ab"), MatchResult::Success);
    assert_eq!(match_here("abc", "abc"), MatchResult::Success);
}

#[test]
fn literal_miss_skips_one_character() {
    assert_eq!(match_here("xbc", "a"), MatchResult::Remaining("bc"));
    assert_eq!(match_here("b", "c"), MatchResult::Remaining(""));
}

#[test]
fn literal_miss_after_a_match_skips_past_both() {
    assert_eq!(match_here("aab", "ab"), MatchResult::Remaining("b"));
    assert_eq!(match_here("abx", "abc"), MatchResult::Remaining(""));
}

#[test]
fn literal_on_used_up_input_fails() {
    assert_eq!(match_here("", "a"), MatchResult::Failure);
    assert_eq!(match_here("a", "ab"), MatchResult::Failure);
}

#[test]
fn digit_escape_accepts_ascii_digits_only() {
    assert_eq!(match_here("0", "\\d"), MatchResult::Success);
    assert_eq!(match_here("9x", "\\d"), MatchResult::Success);
    assert_eq!(match_here("a", "\\d"), MatchResult::Failure);
    assert_eq!(match_here("/", "\\d"), MatchResult::Failure);
    assert_eq!(match_here(":", "\\d"), MatchResult::Failure);
    assert_eq!(match_here("٣", "\\d"), MatchResult::Failure);
    assert_eq!(match_here("", "\\d"), MatchResult::Failure);
}

#[test]
fn word_escape_accepts_ascii_letters_and_digits_only() {
    assert_eq!(match_here("a", "\\w"), MatchResult::Success);
    assert_eq!(match_here("z", "\\w"), MatchResult::Success);
    assert_eq!(match_here("A", "\\w"), MatchResult::Success);
    assert_eq!(match_here("Z", "\\w"), MatchResult::Success);
    assert_eq!(match_here("5", "\\w"), MatchResult::Success);
    assert_eq!(match_here("_", "\\w"), MatchResult::Failure);
    assert_eq!(match_here("@", "\\w"), MatchResult::Failure);
    assert_eq!(match_here("[", "\\w"), MatchResult::Failure);
    assert_eq!(match_here("`", "\\w"), MatchResult::Failure);
    assert_eq!(match_here("{", "\\w"), MatchResult::Failure);
    assert_eq!(match_here("é", "\\w"), MatchResult::Failure);
    assert_eq!(match_here("", "\\w"), MatchResult::Failure);
}

#[test]
fn escape_takes_two_pattern_characters() {
    assert_eq!(match_here("1a", "\\da"), MatchResult::Success);
    assert_eq!(match_here("1b", "\\da"), MatchResult::Remaining(""));
    assert_eq!(match_here("1d", "\\dd"), MatchResult::Success);
}

#[test]
fn other_escapes_fail() {
    assert_eq!(match_here("x", "\\x"), MatchResult::Failure);
    assert_eq!(match_here("\\", "\\\\"), MatchResult::Failure);
    assert_eq!(match_here("a", "\\"), MatchResult::Failure);
    assert_eq!(match_here("", "\\"), MatchResult::Failure);
    assert_eq!(match_here("]", "\\]"), MatchResult::Failure);
}

#[test]
fn end_anchor_succeeds_on_used_up_input_only() {
    assert_eq!(match_here("", "$"), MatchResult::Success);
    assert_eq!(match_here("a", "$"), MatchResult::Failure);
    assert_eq!(match_here("", "$a"), MatchResult::Success);
    assert_eq!(match_here("", "$+"), MatchResult::Success);
}

#[test]
fn class_success_goes_on_after_the_closing_bracket() {
    assert_eq!(match_here("a", "[abc]"), MatchResult::Success);
    assert_eq!(match_here("cat", "[abc]at"), MatchResult::Success);
    assert_eq!(match_here("cut", "[abc]at"), MatchResult::Remaining("t"));
    assert_eq!(match_here("dog", "[^abc]og"), MatchResult::Success);
}

#[test]
fn class_miss_skips_one_character() {
    assert_eq!(match_here("xy", "[abc]"), MatchResult::Remaining("y"));
    assert_eq!(match_here("x", "[abc]"), MatchResult::Remaining(""));
    assert_eq!(match_here("cog", "[^abc]og"), MatchResult::Remaining("og"));
}

#[test]
fn class_on_used_up_input_leaves_it_unchanged() {
    assert_eq!(match_here("", "[abc]"), MatchResult::Remaining(""));
    assert_eq!(match_here("", "[^abc]x"), MatchResult::Remaining(""));
    assert_eq!(match_here("a", "a[bc]"), MatchResult::Remaining(""));
}

#[test]
fn malformed_class_fails_whatever_the_input() {
    assert_eq!(match_here("a", "[abc"), MatchResult::Failure);
    assert_eq!(match_here("", "[abc"), MatchResult::Failure);
    assert_eq!(match_here("a", "["), MatchResult::Failure);
    assert_eq!(match_here("a", "[^"), MatchResult::Failure);
    assert_eq!(match_here("a", "[a[b]"), MatchResult::Failure);
    assert_eq!(match_here("a", "[]"), MatchResult::Failure);
    assert_eq!(match_here("a", "[^]"), MatchResult::Failure);
    assert_eq!(match_here("", "[]"), MatchResult::Failure);
}

#[test]
fn caret_is_a_member_unless_it_leads() {
    assert_eq!(match_here("^", "[a^]"), MatchResult::Success);
    assert_eq!(match_here("^", "[^^]"), MatchResult::Remaining(""));
    assert_eq!(match_here("a", "[^^]"), MatchResult::Success);
    assert_eq!(match_here("^", "[^a]"), MatchResult::Success);
}

#[test]
fn backslash_and_other_signs_are_plain_members() {
    assert_eq!(match_here("\\", "[\\d]"), MatchResult::Success);
    assert_eq!(match_here("d", "[\\d]"), MatchResult::Success);
    assert_eq!(match_here("5", "[\\d]"), MatchResult::Remaining(""));
    assert_eq!(match_here("$", "[$+]"), MatchResult::Success);
    assert_eq!(match_here("+", "[$+]"), MatchResult::Success);
}

#[test]
fn first_closing_bracket_ends_the_class() {
    assert_eq!(match_here("a]", "[a]]"), MatchResult::Success);
    assert_eq!(match_here("\\]", "[\\]]"), MatchResult::Success);
    assert_eq!(match_here("]", "[\\]]"), MatchResult::Remaining(""));
}

#[test]
fn one_or_more_goes_on_after_the_run() {
    assert_eq!(match_here("aaab", "a+b"), MatchResult::Success);
    assert_eq!(match_here("ab", "a+b"), MatchResult::Success);
    assert_eq!(match_here("aaa", "a+"), MatchResult::Success);
    assert_eq!(match_here("aaac", "a+b"), MatchResult::Remaining(""));
    assert_eq!(match_here("aaacd", "a+b"), MatchResult::Remaining("d"));
    assert_eq!(match_here("aaa", "a+b"), MatchResult::Failure);
    assert_eq!(match_here("aaa", "a+a"), MatchResult::Failure);
}

#[test]
fn one_or_more_without_a_run_skips_one_character() {
    assert_eq!(match_here("bbb", "a+"), MatchResult::Remaining("bb"));
    assert_eq!(match_here("b", "a+"), MatchResult::Remaining(""));
}

#[test]
fn one_or_more_on_used_up_input_fails() {
    assert_eq!(match_here("", "a+"), MatchResult::Failure);
    assert_eq!(match_here("a", "aa+"), MatchResult::Failure);
}

#[test]
fn one_or_more_applies_to_any_literal() {
    assert_eq!(match_here("  x", " +x"), MatchResult::Success);
    assert_eq!(match_here("..", ".+"), MatchResult::Success);
    assert_eq!(match_here("a", ".+"), MatchResult::Remaining(""));
    assert_eq!(match_here("++", "++"), MatchResult::Success);
    assert_eq!(match_here("]]", "]+"), MatchResult::Success);
    assert_eq!(match_here("^^", "^+"), MatchResult::Success);
}

#[test]
fn remaining_is_a_suffix_of_the_input() {
    let input = "abcabd";
    for pattern in ["abd", "x", "[xyz]", "a+c", "abcabx", "b+"] {
        match match_here(input, pattern) {
            MatchResult::Remaining(rest) => {
                assert!(input.ends_with(rest));
                assert!(rest.len() < input.len());
            }
            MatchResult::Success | MatchResult::Failure => {}
        }
    }
}

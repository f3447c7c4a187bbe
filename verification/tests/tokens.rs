use mini_regex::{
    is_digit, is_word, match_neg_group, match_pos_group, match_sequence, parse_class, CharClass,
    MatchResult,
};

#[test]
fn digits_are_the_ten_ascii_digits() {
    for c in '0'..='9' {
        assert!(is_digit(c));
    }
    assert!(!is_digit('/'));
    assert!(!is_digit(':'));
    assert!(!is_digit('a'));
    assert!(!is_digit('٣'));
}

#[test]
fn word_characters_are_ascii_letters_and_digits() {
    for c in 'a'..='z' {
        assert!(is_word(c));
    }
    for c in 'A'..='Z' {
        assert!(is_word(c));
    }
    for c in '0'..='9' {
        assert!(is_word(c));
    }
    for c in ['_', '-', ' ', '@', '[', '`', '{', '/', ':', 'é', 'ß', '٣'] {
        assert!(!is_word(c));
    }
}

#[test]
fn positive_group_accepts_its_members() {
    assert_eq!(match_pos_group("cat", "abc"), MatchResult::Success);
    assert_eq!(match_pos_group("a", "abc"), MatchResult::Success);
    assert_eq!(match_pos_group("dog", "abc"), MatchResult::Remaining("og"));
    assert_eq!(match_pos_group("d", "abc"), MatchResult::Remaining(""));
}

#[test]
fn negative_group_accepts_what_is_not_a_member() {
    assert_eq!(match_neg_group("dog", "abc"), MatchResult::Success);
    assert_eq!(match_neg_group("cog", "abc"), MatchResult::Remaining("og"));
    assert_eq!(match_neg_group("c", "abc"), MatchResult::Remaining(""));
}

#[test]
fn groups_on_used_up_input_leave_it_unchanged() {
    assert_eq!(match_pos_group("", "abc"), MatchResult::Remaining(""));
    assert_eq!(match_neg_group("", "abc"), MatchResult::Remaining(""));
}

#[test]
fn group_without_members_accepts_by_polarity_alone() {
    assert_eq!(match_pos_group("a", ""), MatchResult::Remaining(""));
    assert_eq!(match_neg_group("a", ""), MatchResult::Success);
}

#[test]
fn group_skips_a_whole_character() {
    assert_eq!(match_pos_group("éa", "abc"), MatchResult::Remaining("a"));
    assert_eq!(match_neg_group("éa", "é"), MatchResult::Remaining("a"));
    assert_eq!(match_pos_group("éa", "xé"), MatchResult::Success);
}

#[test]
fn sequence_hands_back_the_run() {
    assert_eq!(match_sequence("aaab", 'a'), MatchResult::Remaining("aaa"));
    assert_eq!(match_sequence("ab", 'a'), MatchResult::Remaining("a"));
    assert_eq!(match_sequence("aaa", 'a'), MatchResult::Remaining("aaa"));
    assert_eq!(match_sequence("a", 'a'), MatchResult::Remaining("a"));
    assert_eq!(match_sequence("aabaa", 'a'), MatchResult::Remaining("aa"));
    assert_eq!(match_sequence("ééx", 'é'), MatchResult::Remaining("éé"));
}

#[test]
fn sequence_fails_without_a_first_occurrence() {
    assert_eq!(match_sequence("baaa", 'a'), MatchResult::Failure);
    assert_eq!(match_sequence("", 'a'), MatchResult::Failure);
}

#[test]
fn class_parse_gives_members_polarity_and_rest() {
    assert_eq!(
        parse_class("[abc]at"),
        Some((CharClass { members: "abc", negative: false }, "at"))
    );
    assert_eq!(
        parse_class("[^abc]og"),
        Some((CharClass { members: "abc", negative: true }, "og"))
    );
    assert_eq!(parse_class("[a]"), Some((CharClass { members: "a", negative: false }, "")));
    assert_eq!(parse_class("[a^]"), Some((CharClass { members: "a^", negative: false }, "")));
    assert_eq!(parse_class("[^^]"), Some((CharClass { members: "^", negative: true }, "")));
    assert_eq!(parse_class("[a]]"), Some((CharClass { members: "a", negative: false }, "]")));
    assert_eq!(parse_class("[a][b]"), Some((CharClass { members: "a", negative: false }, "[b]")));
    assert_eq!(parse_class("[é本]x"), Some((CharClass { members: "é本", negative: false }, "x")));
}

#[test]
fn class_parse_refuses_malformed_classes() {
    assert_eq!(parse_class(""), None);
    assert_eq!(parse_class("abc]"), None);
    assert_eq!(parse_class("["), None);
    assert_eq!(parse_class("[^"), None);
    assert_eq!(parse_class("[abc"), None);
    assert_eq!(parse_class("[^abc"), None);
    assert_eq!(parse_class("[a[b]"), None);
    assert_eq!(parse_class("[[]"), None);
    assert_eq!(parse_class("[]"), None);
    assert_eq!(parse_class("[^]"), None);
    assert_eq!(parse_class("[]a]"), None);
}

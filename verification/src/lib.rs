//! A small backtracking pattern matcher over characters.
//!
//! The pattern language has literal characters, the escape classes `\d` and
//! `\w`, bracket classes `[abc]` and `[^abc]`, the anchors `^` and `$`, and a
//! one-or-more quantifier `+` on a single literal character.
//!
//! Every executable function is specified against a mathematical model over
//! `Seq<char>`: [`outcome::Outcome`] models one attempt at a fixed position,
//! [`matcher::spec_match_here`] the positional matcher and
//! [`matcher::spec_match_pattern`] the whole search.
pub mod outcome;
pub mod class;
pub mod sequence;
pub mod matcher;
pub mod lemmas;

pub use crate::class::{
    is_digit, is_word, match_neg_group, match_pos_group, parse_class, CharClass, ClassModel,
};
pub use crate::matcher::{match_here, match_pattern};
pub use crate::outcome::{MatchResult, Outcome};
pub use crate::sequence::match_sequence;

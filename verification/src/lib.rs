//! A small grep-style pattern matcher: patterns are parsed into atoms
//! (literals, classes, groups, repetition, anchors, alternation and
//! back-references) and matched against text with backtracking.

pub mod atom;
pub mod text;
pub mod parse;
pub mod matcher;
pub mod search;
pub mod laws;

pub use atom::PatternAtom;
pub use parse::{PatternError, parse_pattern, split_pattern};
pub use matcher::{MatchFailure, find_pattern_atom_at_start, match_string_exactly, try_match_string_exactly};
pub use search::{match_pattern, try_match_pattern};

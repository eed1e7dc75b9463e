// Compiled wildcard tokens and their mathematical model.

use std::collections::BTreeSet;
use vstd::prelude::*;

verus! {

/// Token representations compiled from a wildcard pattern.
///
/// Bracket sets hold the Unicode scalar values (`char as u32`) of their
/// members.
#[derive(Debug, PartialEq, Eq)]
pub enum MatchToken {
    /// A literal character.
    Char(char),
    /// Matches exactly one character except path separators (represented by '?').
    AnyChar,
    /// Matches zero or more characters including path separators (represented by '**').
    AnySeq,
    /// Matches zero or more characters except path separators (represented by '*').
    AnySeqNoSeparator,
    /// Matches any character in the set (represented by '[chars]').
    CharSet(BTreeSet<u32>),
    /// Matches any non-separator character not in the set (represented by '[^chars]').
    NegatedSet(BTreeSet<u32>),
}

/// The mathematical value of a [`MatchToken`].
pub ghost enum TokenSpec {
    Char(char),
    AnyChar,
    AnySeq,
    AnySeqNoSeparator,
    CharSet(Set<u32>),
    NegatedSet(Set<u32>),
}

impl View for MatchToken {
    type V = TokenSpec;

    open spec fn view(&self) -> TokenSpec {
        match self {
            MatchToken::Char(c) => TokenSpec::Char(*c),
            MatchToken::AnyChar => TokenSpec::AnyChar,
            MatchToken::AnySeq => TokenSpec::AnySeq,
            MatchToken::AnySeqNoSeparator => TokenSpec::AnySeqNoSeparator,
            MatchToken::CharSet(s) => TokenSpec::CharSet(s@),
            MatchToken::NegatedSet(s) => TokenSpec::NegatedSet(s@),
        }
    }
}

impl Clone for MatchToken {
    fn clone(&self) -> (r: Self)
        ensures
            r@ == self@,
    {
        match self {
            MatchToken::Char(c) => MatchToken::Char(*c),
            MatchToken::AnyChar => MatchToken::AnyChar,
            MatchToken::AnySeq => MatchToken::AnySeq,
            MatchToken::AnySeqNoSeparator => MatchToken::AnySeqNoSeparator,
            MatchToken::CharSet(s) => MatchToken::CharSet(s.clone()),
            MatchToken::NegatedSet(s) => MatchToken::NegatedSet(s.clone()),
        }
    }
}

/// The models of a token sequence.
pub open spec fn tokens_view(ts: Seq<MatchToken>) -> Seq<TokenSpec> {
    ts.map_values(|t: MatchToken| t@)
}

} // verus!

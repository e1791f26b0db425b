//! How well a name fits a query, told apart before it is weighed.

use vstd::prelude::*;

verus! {

/// Where a query was found in a name.
#[derive(Clone, Copy, Debug, PartialEq, Eq, Structural)]
pub enum MatchClass {
    /// The query is the name.
    Whole,
    /// The name begins with the query.
    Prefix,
    /// The query stands further in; the penalty grows with the distance from the start.
    Inner { penalty: u8 },
}

/// The largest penalty for a match away from the start of the name.
pub const LARGEST_PENALTY: u8 = 30;

/// The class of a match of `query_len` bytes at `match_pos` in a name of `name_len` bytes. A match
/// away from the start is set back two points for each byte before it, thirty at most.
pub open spec fn class_of(name_len: int, query_len: int, match_pos: int) -> MatchClass {
    if match_pos == 0 && name_len == query_len {
        MatchClass::Whole
    } else if match_pos == 0 {
        MatchClass::Prefix
    } else if 2 * match_pos < LARGEST_PENALTY {
        MatchClass::Inner { penalty: (2 * match_pos) as u8 }
    } else {
        MatchClass::Inner { penalty: LARGEST_PENALTY }
    }
}

/// The place of a match alone tells whether it stands at the start: at place 0 it is the whole name
/// where the query is as long as the name and a prefix of the name in every other case, and only
/// behind place 0 it is an inner one, whatever the lengths are.
pub proof fn law_place_tells_the_class(name_len: int, query_len: int, match_pos: int)
    requires
        match_pos >= 0,
    ensures
        class_of(name_len, query_len, match_pos) is Whole <==> match_pos == 0 && name_len
            == query_len,
        class_of(name_len, query_len, match_pos) is Prefix <==> match_pos == 0 && name_len
            != query_len,
        class_of(name_len, query_len, match_pos) is Inner <==> match_pos > 0,
{
}

/// An inner match is set back by two for each byte before it, but never by more than thirty: the
/// penalty is even, it tells the place exactly up to the fifteenth byte, and from there on it stays
/// as it is. The lengths do not change it.
pub proof fn law_penalty_grows_with_the_place(
    name_len: int,
    query_len: int,
    match_pos: int,
    other_name_len: int,
    other_query_len: int,
    other_pos: int,
)
    requires
        0 < match_pos <= other_pos,
    ensures
        class_of(name_len, query_len, match_pos)->penalty % 2 == 0,
        2 <= class_of(name_len, query_len, match_pos)->penalty <= 30,
        match_pos <= 15 ==> class_of(name_len, query_len, match_pos)->penalty == match_pos
            + match_pos,
        match_pos >= 15 ==> class_of(name_len, query_len, match_pos)->penalty == 30,
        class_of(name_len, query_len, match_pos)->penalty <= class_of(
            other_name_len,
            other_query_len,
            other_pos,
        )->penalty,
        match_pos < other_pos && match_pos < 15 ==> class_of(
            name_len,
            query_len,
            match_pos,
        )->penalty < class_of(other_name_len, other_query_len, other_pos)->penalty,
{
}

/// How far up a match stands by its class alone: the whole name before a prefix, a prefix before an
/// inner match, and inner matches with the smaller penalty first.
pub open spec fn class_rank(class: MatchClass) -> int {
    match class {
        MatchClass::Whole => 0,
        MatchClass::Prefix => 1,
        MatchClass::Inner { penalty } => 2 + penalty,
    }
}

/// A match at the start of a name never stands below one further in, and of two matches the one
/// nearer to the start of its name never stands below the other, unless both stand at the start.
pub proof fn law_nearer_match_never_ranks_below(
    name_len: int,
    query_len: int,
    match_pos: int,
    other_name_len: int,
    other_query_len: int,
    other_pos: int,
)
    requires
        0 <= match_pos < other_pos,
    ensures
        class_rank(class_of(name_len, query_len, match_pos)) <= class_rank(
            class_of(other_name_len, other_query_len, other_pos),
        ),
        match_pos == 0 ==> class_rank(class_of(name_len, query_len, match_pos)) < class_rank(
            class_of(other_name_len, other_query_len, other_pos),
        ),
        class_rank(class_of(query_len, query_len, 0)) < class_rank(
            class_of(other_name_len, other_query_len, other_pos),
        ),
{
}

/// Tells where a query was found in a name.
pub fn classify_match(name_len: usize, query_len: usize, match_pos: usize) -> (class: MatchClass)
    ensures
        class == class_of(name_len as int, query_len as int, match_pos as int),
{
    if match_pos == 0 {
        if name_len == query_len {
            MatchClass::Whole
        } else {
            MatchClass::Prefix
        }
    } else if match_pos < 15 {
        MatchClass::Inner { penalty: 2 * (match_pos as u8) }
    } else {
        MatchClass::Inner { penalty: LARGEST_PENALTY }
    }
}

} // verus!

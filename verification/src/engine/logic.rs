use crate::engine::data::Strictness;
use crate::engine::text::{lowercase, str_eq, to_lowercase, trim, trimmed};
use vstd::prelude::*;

verus! {

/// Whether a candidate counts as the expected answer under a comparison
/// policy: character for character, after trimming outer white space, or
/// after trimming and lower-casing.
pub open spec fn answers_match(ans: Seq<char>, correct: Seq<char>, level: Strictness) -> bool {
    match level {
        Strictness::Exact => ans == correct,
        Strictness::Trimmed => trimmed(ans) == trimmed(correct),
        Strictness::Caseless => lowercase(trimmed(ans)) == lowercase(trimmed(correct)),
    }
}

/// Judges a candidate answer against the expected one.
pub fn check_answer(ans: &str, correct: &str, level: &Strictness) -> (matches: bool)
    ensures
        matches == answers_match(ans@, correct@, *level),
{
    match level {
        Strictness::Exact => str_eq(ans, correct),
        Strictness::Trimmed => str_eq(trim(ans), trim(correct)),
        Strictness::Caseless => {
            let a = to_lowercase(trim(ans));
            let c = to_lowercase(trim(correct));
            a == c
        },
    }
}

} // verus!

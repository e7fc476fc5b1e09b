use crate::crawler::data::ParseError;
use vstd::prelude::*;
use vstd::string::StringSliceAdditionalSpecFns;
use vstd::utf8::{decode_utf8, encode_utf8, is_char_boundary};

verus! {

/// Where the groups of a match lie in a text, in bytes: one entry for each
/// group of the expression, the whole match first, `None` for a group that
/// took no part in the match.
pub type Spans = Vec<Option<(usize, usize)>>;

/// What a search for a regular expression in a text finds from the byte
/// `from` on: the groups of the first match, `None` where nothing matches,
/// `BadPattern` where the expression does not compile, and `SearchFailed`
/// where the search was given up.
pub uninterp spec fn regex_search(pattern: Seq<char>, text: Seq<char>, from: nat) -> Result<
    Option<Seq<Option<(usize, usize)>>>,
    ParseError,
>;

/// `Regex::new` and then `Regex::search_with_param` from a byte of the text
/// to its end, with no options and the default limits; the groups are read
/// with `Region::pos`. An expression that does not compile gives
/// `BadPattern`, a search that the engine gives up gives `SearchFailed`.
#[verifier::external_body]
fn search(pattern: &str, text: &str, from: usize) -> (found: Result<Option<Spans>, ParseError>)
    requires
        from <= text.spec_bytes().len(),
    ensures
        match found {
            Ok(Some(spans)) => regex_search(pattern@, text@, from as nat) == Ok::<
                Option<Seq<Option<(usize, usize)>>>,
                ParseError,
            >(Some(spans@)),
            Ok(None) => regex_search(pattern@, text@, from as nat) == Ok::<
                Option<Seq<Option<(usize, usize)>>>,
                ParseError,
            >(None),
            Err(e) => regex_search(pattern@, text@, from as nat) == Err::<
                Option<Seq<Option<(usize, usize)>>>,
                ParseError,
            >(e),
        },
{
    let Ok(regex) = onig::Regex::new(pattern) else {
        return Err(ParseError::BadPattern);
    };
    let mut region = onig::Region::new();
    let options = onig::SearchOptions::SEARCH_OPTION_NONE;
    let limits = onig::MatchParam::default();
    match regex.search_with_param(text, from, text.len(), options, Some(&mut region), limits) {
        Ok(Some(_)) => Ok(Some((0..region.len()).map(|group| region.pos(group)).collect())),
        Ok(None) => Ok(None),
        Err(_) => Err(ParseError::SearchFailed),
    }
}

/// Whether two bytes of a text bound a piece of it.
pub open spec fn bounds_piece(text: Seq<char>, start: int, end: int) -> bool {
    &&& 0 <= start <= end <= encode_utf8(text).len()
    &&& is_char_boundary(encode_utf8(text), start)
    &&& is_char_boundary(encode_utf8(text), end)
}

/// The piece of a text between two of its bytes.
pub open spec fn piece_of(text: Seq<char>, start: int, end: int) -> Seq<char> {
    decode_utf8(encode_utf8(text).subrange(start, end))
}

/// The piece of a text between two of its bytes, if they bound one.
pub fn piece(text: &str, start: usize, end: usize) -> (found: Option<&str>)
    ensures
        match found {
            Some(part) => bounds_piece(text@, start as int, end as int) && part@ == piece_of(
                text@,
                start as int,
                end as int,
            ),
            None => !bounds_piece(text@, start as int, end as int),
        },
{
    broadcast use vstd::utf8::encode_utf8_valid_utf8;
    broadcast use vstd::utf8::encode_utf8_decode_utf8;
    broadcast use vstd::utf8::valid_utf8_split;

    assert(text.spec_bytes() == encode_utf8(text@));
    if start > end {
        return None;
    }
    if !text.is_char_boundary(start) || !text.is_char_boundary(end) {
        return None;
    }
    let (head, _) = text.split_at(end);
    proof {
        let bytes = encode_utf8(text@);
        assert(head.spec_bytes() == bytes.subrange(0, end as int));
        lemma_boundary_in_head(bytes, start as int, end as int);
    }
    let (_, part) = head.split_at(start);
    proof {
        let bytes = encode_utf8(text@);
        assert(part.spec_bytes() =~= bytes.subrange(start as int, end as int));
        assert(decode_utf8(encode_utf8(part@)) == part@);
    }
    Some(part)
}

/// A boundary of a text is a boundary of each head of the text that reaches
/// as far.
proof fn lemma_boundary_in_head(bytes: Seq<u8>, start: int, end: int)
    requires
        vstd::utf8::valid_utf8(bytes),
        0 <= start <= end <= bytes.len(),
        is_char_boundary(bytes, start),
        is_char_boundary(bytes, end),
    ensures
        is_char_boundary(bytes.subrange(0, end), start),
{
    let head = bytes.subrange(0, end);
    vstd::utf8::valid_utf8_split(bytes, end);
    if start < end {
        vstd::utf8::is_char_boundary_iff_not_is_continuation_byte(bytes, start);
        vstd::utf8::is_char_boundary_iff_not_is_continuation_byte(head, start);
        assert(head[start] == bytes[start]);
    } else {
        vstd::utf8::is_char_boundary_start_end_of_seq(head);
    }
}

/// The first match of an expression in a text, if it has one.
pub open spec fn first_match_of(pattern: Seq<char>, text: Seq<char>) -> Result<
    Option<Seq<Option<(usize, usize)>>>,
    ParseError,
> {
    regex_search(pattern, text, 0)
}

/// The first match of an expression in a text, if it has one.
pub fn first_match(pattern: &str, text: &str) -> (found: Result<Option<Spans>, ParseError>)
    ensures
        match found {
            Ok(Some(spans)) => first_match_of(pattern@, text@) == Ok::<
                Option<Seq<Option<(usize, usize)>>>,
                ParseError,
            >(Some(spans@)),
            Ok(None) => first_match_of(pattern@, text@) == Ok::<
                Option<Seq<Option<(usize, usize)>>>,
                ParseError,
            >(None),
            Err(e) => first_match_of(pattern@, text@) == Err::<
                Option<Seq<Option<(usize, usize)>>>,
                ParseError,
            >(e),
        },
{
    search(pattern, text, 0)
}

/// The first byte after `from` at which a character of the text begins or
/// the text ends.
pub open spec fn next_boundary(text: Seq<char>, from: nat) -> nat
    decreases encode_utf8(text).len() - from,
{
    if from + 1 >= encode_utf8(text).len() || is_char_boundary(encode_utf8(text), (from + 1) as int) {
        from + 1
    } else {
        next_boundary(text, from + 1)
    }
}

/// The first byte after `from` at which a character of the text begins or
/// the text ends.
fn step_over(text: &str, from: usize) -> (next: usize)
    requires
        from < text.spec_bytes().len(),
        is_char_boundary(encode_utf8(text@), from as int),
    ensures
        next == next_boundary(text@, from as nat),
        from < next <= text.spec_bytes().len(),
        is_char_boundary(encode_utf8(text@), next as int),
{
    assert(text.spec_bytes() == encode_utf8(text@));
    proof {
        vstd::utf8::encode_utf8_valid_utf8(text@);
        vstd::utf8::is_char_boundary_start_end_of_seq(encode_utf8(text@));
    }
    let len = text.as_bytes().len();
    let mut next = from + 1;
    while !text.is_char_boundary(next)
        invariant
            from < next <= len,
            len == text.spec_bytes().len(),
            text.spec_bytes() == encode_utf8(text@),
            next_boundary(text@, from as nat) == next_boundary(text@, (next - 1) as nat),
            is_char_boundary(encode_utf8(text@), len as int),
        decreases len - next,
    {
        next += 1;
    }
    next
}

/// A list of matches with more matches in front of it, if there is a list.
pub open spec fn after<T>(front: Seq<T>, rest: Result<Seq<T>, ParseError>) -> Result<
    Seq<T>,
    ParseError,
> {
    match rest {
        Ok(matches) => Ok(front + matches),
        Err(e) => Err(e),
    }
}

/// The matches of an expression in a text from the byte `from` on, one
/// after the other and none within another, `last` being the end of the
/// match before: each search starts where the last match ended, and an empty
/// match that ends where the last match ended is stepped over by one
/// character. A search that fails ends the list with its error, and so does
/// a match that does not lie in the text from `from` on.
pub open spec fn matches_from(pattern: Seq<char>, text: Seq<char>, from: nat, last: Option<nat>) -> Result<
    Seq<Seq<Option<(usize, usize)>>>,
    ParseError,
>
    decreases encode_utf8(text).len() + 1 - from, if last == Some(from) {
        0nat
    } else {
        1nat
    },
{
    if from > encode_utf8(text).len() {
        Ok(Seq::empty())
    } else {
        match regex_search(pattern, text, from) {
            Err(e) => Err(e),
            Ok(None) => Ok(Seq::empty()),
            Ok(Some(spans)) => {
                if spans.len() == 0 || spans[0] is None {
                    Err(ParseError::BadSpan)
                } else {
                    let (start, end) = spans[0]->0;
                    if !(from <= start && bounds_piece(text, start as int, end as int)) {
                        Err(ParseError::BadSpan)
                    } else if start == end && last == Some(end as nat) {
                        if !(from < next_boundary(text, from) <= encode_utf8(text).len()) {
                            Ok(Seq::empty())
                        } else {
                            matches_from(pattern, text, next_boundary(text, from), last)
                        }
                    } else {
                        after(seq![spans], matches_from(pattern, text, end as nat, Some(end as nat)))
                    }
                }
            },
        }
    }
}

/// All matches of an expression in a text, one after the other and none
/// within another.
pub open spec fn matches_of(pattern: Seq<char>, text: Seq<char>) -> Result<
    Seq<Seq<Option<(usize, usize)>>>,
    ParseError,
> {
    matches_from(pattern, text, 0, None)
}

/// What a list of matches is as a list of lists of groups.
pub open spec fn spans_view(matches: Seq<Spans>) -> Seq<Seq<Option<(usize, usize)>>> {
    Seq::new(matches.len(), |i: int| matches[i]@)
}

/// All matches of an expression in a text, one after the other and none
/// within another.
pub fn find_all(pattern: &str, text: &str) -> (found: Result<Vec<Spans>, ParseError>)
    ensures
        match found {
            Ok(matches) => matches_of(pattern@, text@) == Ok::<
                Seq<Seq<Option<(usize, usize)>>>,
                ParseError,
            >(spans_view(matches@)),
            Err(e) => matches_of(pattern@, text@) == Err::<
                Seq<Seq<Option<(usize, usize)>>>,
                ParseError,
            >(e),
        },
{
    let mut matches: Vec<Spans> = Vec::new();
    let mut from: usize = 0;
    let mut last: Option<usize> = None;
    let ghost bytes = encode_utf8(text@);
    assert(text.spec_bytes() == bytes);
    proof {
        vstd::utf8::encode_utf8_valid_utf8(text@);
        vstd::utf8::is_char_boundary_start_end_of_seq(bytes);
        assert(spans_view(matches@) =~= Seq::empty());
        assert(after(Seq::empty(), matches_from(pattern@, text@, 0, None)) == matches_from(
            pattern@,
            text@,
            0,
            None,
        )) by {
            match matches_from(pattern@, text@, 0, None) {
                Ok(m) => {
                    assert(Seq::<Seq<Option<(usize, usize)>>>::empty() + m =~= m);
                },
                Err(_) => {},
            }
        }
    }
    loop
        invariant
            bytes == encode_utf8(text@),
            text.spec_bytes() == bytes,
            from <= bytes.len(),
            is_char_boundary(bytes, from as int),
            matches_of(pattern@, text@) == after(
                spans_view(matches@),
                matches_from(
                    pattern@,
                    text@,
                    from as nat,
                    match last {
                        Some(end) => Some(end as nat),
                        None => None,
                    },
                ),
            ),
        decreases
                bytes.len() + 1 - from,
                if (match last {
                    Some(end) => Some(end as nat),
                    None => None::<nat>,
                }) == Some(from as nat) {
                    0nat
                } else {
                    1nat
                },
    {
        let ghost so_far = spans_view(matches@);
        let ghost last_view: Option<nat> = match last {
            Some(end) => Some(end as nat),
            None => None,
        };
        let spans = match search(pattern, text, from) {
            Err(e) => {
                return Err(e);
            },
            Ok(None) => {
                proof {
                    assert(so_far + Seq::<Seq<Option<(usize, usize)>>>::empty() =~= so_far);
                }
                return Ok(matches);
            },
            Ok(Some(spans)) => spans,
        };
        if spans.len() == 0 {
            return Err(ParseError::BadSpan);
        }
        let (start, end) = match spans[0] {
            Some(span) => span,
            None => {
                return Err(ParseError::BadSpan);
            },
        };
        if from > start || piece(text, start, end).is_none() {
            return Err(ParseError::BadSpan);
        }
        if start == end && last == Some(end) {
            if from >= text.as_bytes().len() {
                proof {
                    assert(so_far + Seq::<Seq<Option<(usize, usize)>>>::empty() =~= so_far);
                }
                return Ok(matches);
            }
            from = step_over(text, from);
        } else {
            let ghost rest = matches_from(pattern@, text@, end as nat, Some(end as nat));
            proof {
                match rest {
                    Ok(m) => {
                        assert(so_far + (seq![spans@] + m) =~= so_far.push(spans@) + m);
                    },
                    Err(_) => {},
                }
            }
            matches.push(spans);
            assert(spans_view(matches@) =~= so_far.push(spans@));
            from = end;
            last = Some(end);
        }
    }
}

} // verus!

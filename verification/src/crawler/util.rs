use crate::crawler::data::{ParseError, ReflowStrategy};
use crate::crawler::regex::{
    bounds_piece, find_all, first_match, first_match_of, matches_of, piece, piece_of, spans_view,
};
use crate::engine::text::{trim, trimmed};
use vstd::prelude::*;
use vstd::string::StringSliceAdditionalSpecFns;
use vstd::utf8::encode_utf8;

verus! {

/// A text with more text in front of it, if there is a text.
pub open spec fn behind(front: Seq<char>, rest: Result<Seq<char>, ParseError>) -> Result<
    Seq<char>,
    ParseError,
> {
    match rest {
        Ok(text) => Ok(front + text),
        Err(e) => Err(e),
    }
}

/// Where a match lies in the text as a whole.
pub open spec fn whole_of(spans: Seq<Option<(usize, usize)>>) -> Option<(usize, usize)> {
    if spans.len() > 0 {
        spans[0]
    } else {
        None
    }
}

/// The text from the byte `last` on in which each match from number `i` on
/// has given way to a replacement. The matches must follow one another in
/// the text.
pub open spec fn spliced_from(
    text: Seq<char>,
    matches: Seq<Seq<Option<(usize, usize)>>>,
    replacement: Seq<char>,
    i: nat,
    last: nat,
) -> Result<Seq<char>, ParseError>
    decreases matches.len() - i,
{
    if i >= matches.len() {
        if bounds_piece(text, last as int, encode_utf8(text).len() as int) {
            Ok(piece_of(text, last as int, encode_utf8(text).len() as int))
        } else {
            Err(ParseError::BadSpan)
        }
    } else {
        match whole_of(matches[i as int]) {
            None => Err(ParseError::BadSpan),
            Some((start, end)) => if bounds_piece(text, last as int, start as int) {
                behind(
                    piece_of(text, last as int, start as int) + replacement,
                    spliced_from(text, matches, replacement, i + 1, end as nat),
                )
            } else {
                Err(ParseError::BadSpan)
            },
        }
    }
}

/// A text in which each match of an expression has given way to a
/// replacement.
pub open spec fn replaced(pattern: Seq<char>, text: Seq<char>, replacement: Seq<char>) -> Result<
    Seq<char>,
    ParseError,
> {
    match matches_of(pattern, text) {
        Err(e) => Err(e),
        Ok(matches) => spliced_from(text, matches, replacement, 0, 0),
    }
}

/// Replaces each match of an expression in a text.
pub fn replace_all(pattern: &str, text: &str, replacement: &str) -> (found: Result<
    String,
    ParseError,
>)
    ensures
        match found {
            Ok(new) => replaced(pattern@, text@, replacement@) == Ok::<Seq<char>, ParseError>(new@),
            Err(e) => replaced(pattern@, text@, replacement@) == Err::<Seq<char>, ParseError>(e),
        },
{
    let matches = match find_all(pattern, text) {
        Ok(matches) => matches,
        Err(e) => {
            return Err(e);
        },
    };
    let ghost all = spans_view(matches@);
    let mut new = String::new();
    let mut last: usize = 0;
    let mut i: usize = 0;
    proof {
        match spliced_from(text@, all, replacement@, 0, 0) {
            Ok(t) => {
                assert(Seq::<char>::empty() + t =~= t);
            },
            Err(_) => {},
        }
    }
    while i < matches.len()
        invariant
            i <= matches.len(),
            all == spans_view(matches@),
            replaced(pattern@, text@, replacement@) == behind(
                new@,
                spliced_from(text@, all, replacement@, i as nat, last as nat),
            ),
        decreases matches.len() - i,
    {
        assert(all[i as int] == matches[i as int]@);
        if matches[i].len() == 0 {
            return Err(ParseError::BadSpan);
        }
        let (start, end) = match matches[i][0] {
            Some(span) => span,
            None => {
                return Err(ParseError::BadSpan);
            },
        };
        let between = match piece(text, last, start) {
            Some(between) => between,
            None => {
                return Err(ParseError::BadSpan);
            },
        };
        let ghost before = new@;
        new.append(between);
        new.append(replacement);
        proof {
            match spliced_from(text@, all, replacement@, (i + 1) as nat, end as nat) {
                Ok(t) => {
                    assert(before + ((between@ + replacement@) + t) =~= new@ + t);
                },
                Err(_) => {},
            }
        }
        last = end;
        i += 1;
    }
    let rest = match piece(text, last, text.as_bytes().len()) {
        Some(rest) => rest,
        None => {
            return Err(ParseError::BadSpan);
        },
    };
    new.append(rest);
    Ok(new)
}

/// A text as it goes into a question. Unflowing trims the text and puts
/// one blank where white space holds a line break. Unindenting trims the
/// text, takes the first line break with the white space that follows it,
/// and puts a line break wherever that occurs. Preserving changes nothing.
pub open spec fn reflowed(strategy: ReflowStrategy, src: Seq<char>) -> Result<Seq<char>, ParseError> {
    match strategy {
        ReflowStrategy::Unflow => replaced(r"\s*\n\s*"@, trimmed(src), " "@),
        ReflowStrategy::Unindent => match first_match_of(r"\n\s*"@, trimmed(src)) {
            Err(e) => Err(e),
            Ok(None) => Ok(trimmed(src)),
            Ok(Some(spans)) => match whole_of(spans) {
                None => Err(ParseError::BadSpan),
                Some((start, end)) => if bounds_piece(trimmed(src), start as int, end as int) {
                    replaced(piece_of(trimmed(src), start as int, end as int), trimmed(src), "\n"@)
                } else {
                    Err(ParseError::BadSpan)
                },
            },
        },
        ReflowStrategy::Preserve => Ok(src),
    }
}

/// Arranges the white space of a text that was cut out of the notes.
pub fn reflow_string(strategy: &ReflowStrategy, src: &str) -> (found: Result<String, ParseError>)
    ensures
        match found {
            Ok(text) => reflowed(*strategy, src@) == Ok::<Seq<char>, ParseError>(text@),
            Err(e) => reflowed(*strategy, src@) == Err::<Seq<char>, ParseError>(e),
        },
{
    match strategy {
        ReflowStrategy::Unflow => replace_all(r"\s*\n\s*", trim(src), " "),
        ReflowStrategy::Unindent => {
            let text = trim(src);
            match first_match(r"\n\s*", text) {
                Err(e) => Err(e),
                Ok(None) => Ok(String::from_str(text)),
                Ok(Some(spans)) => {
                    if spans.len() == 0 {
                        return Err(ParseError::BadSpan);
                    }
                    match spans[0] {
                        None => Err(ParseError::BadSpan),
                        Some((start, end)) => match piece(text, start, end) {
                            Some(indent) => replace_all(indent, text, "\n"),
                            None => Err(ParseError::BadSpan),
                        },
                    }
                },
            }
        },
        ReflowStrategy::Preserve => Ok(String::from_str(src)),
    }
}

} // verus!

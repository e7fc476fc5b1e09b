use crate::crawler::data::{
    BulletConfig, Crawler, ListConfig, ParseError, ReflowStrategy, SectionConfig, TermConfig,
};
use crate::crawler::regex::{
    bounds_piece, find_all, first_match, first_match_of, matches_of, piece, piece_of, spans_view,
    Spans,
};
use crate::crawler::util::{reflow_string, reflowed};
use crate::engine::data::{Bullet, List, Question, Term, VariantView};
use crate::engine::outline::{outline_views, Draft, Outline, OutlineView};
use crate::engine::text::{parse_order, parsed_order, remove_all, without};
use vstd::prelude::*;
use vstd::string::StringSliceAdditionalSpecFns;
use vstd::utf8::encode_utf8;

verus! {

/// The text of group `g` of a match: `MissingGroup` where the match has no
/// such group or the group took no part in it, `BadSpan` where the group
/// does not lie in the text.
pub open spec fn group_of(text: Seq<char>, spans: Seq<Option<(usize, usize)>>, g: int) -> Result<
    Seq<char>,
    ParseError,
> {
    if g < 0 || g >= spans.len() || spans[g] is None {
        Err(ParseError::MissingGroup)
    } else {
        let (start, end) = spans[g]->0;
        if bounds_piece(text, start as int, end as int) {
            Ok(piece_of(text, start as int, end as int))
        } else {
            Err(ParseError::BadSpan)
        }
    }
}

/// The text of group `g` of a match.
pub fn group<'a>(text: &'a str, spans: &Spans, g: usize) -> (found: Result<&'a str, ParseError>)
    ensures
        match found {
            Ok(part) => group_of(text@, spans@, g as int) == Ok::<Seq<char>, ParseError>(part@),
            Err(e) => group_of(text@, spans@, g as int) == Err::<Seq<char>, ParseError>(e),
        },
{
    if g >= spans.len() {
        return Err(ParseError::MissingGroup);
    }
    match spans[g] {
        None => Err(ParseError::MissingGroup),
        Some((start, end)) => match piece(text, start, end) {
            Some(part) => Ok(part),
            None => Err(ParseError::BadSpan),
        },
    }
}

/// The text of group `g` of a match, reflowed.
pub open spec fn reflowed_group(
    flow: ReflowStrategy,
    text: Seq<char>,
    spans: Seq<Option<(usize, usize)>>,
    g: int,
) -> Result<Seq<char>, ParseError> {
    match group_of(text, spans, g) {
        Err(e) => Err(e),
        Ok(part) => reflowed(flow, part),
    }
}

/// The text of group `g` of a match, reflowed.
fn reflow_group(flow: &ReflowStrategy, text: &str, spans: &Spans, g: usize) -> (found: Result<
    String,
    ParseError,
>)
    ensures
        match found {
            Ok(part) => reflowed_group(*flow, text@, spans@, g as int) == Ok::<
                Seq<char>,
                ParseError,
            >(part@),
            Err(e) => reflowed_group(*flow, text@, spans@, g as int) == Err::<
                Seq<char>,
                ParseError,
            >(e),
        },
{
    match group(text, spans, g) {
        Err(e) => Err(e),
        Ok(part) => reflow_string(flow, part),
    }
}

/// What is cut out of the notes, with what a match must tell besides its
/// groups.
pub enum Cut {
    /// Flash cards; `flipped` where the definition is written first.
    Term { flipped: bool },
    /// List items, with the expression for the notes that hang below one.
    List { sub_pattern: Seq<char> },
    /// Free-standing facts.
    Bullet,
}

/// The expression for flash cards: leader, term, separator, definition and
/// terminator, the term and the definition each a group.
pub open spec fn term_pattern(rules: TermConfig) -> Seq<char> {
    rules.leader@ + "("@ + rules.term@ + ")"@ + rules.separator@ + "("@ + rules.definition@ + ")"@
        + rules.terminator@
}

/// The expression for list items: the numeral, the leader, a blank, the
/// body, and any number of notes below it, then the terminator; the numeral,
/// the body and the notes each a group.
pub open spec fn list_pattern(rules: ListConfig) -> Seq<char> {
    "("@ + rules.numerals@ + ")"@ + rules.leader@ + " ("@ + rules.body@ + ")\\s*("@
        + rules.sub_leader@ + rules.body@ + ")*"@ + rules.terminator@
}

/// The expression for one note below a list item: leader, body and
/// terminator, the body a group.
pub open spec fn sub_pattern(rules: ListConfig) -> Seq<char> {
    rules.sub_leader@ + "("@ + rules.body@ + ")"@ + rules.sub_terminator@
}

/// The expression for free-standing facts: leader, body and terminator, the
/// body a group.
pub open spec fn bullet_pattern(rules: BulletConfig) -> Seq<char> {
    rules.leader@ + "("@ + rules.body@ + ")"@ + rules.terminator@
}

/// The texts of a list, one after the other.
fn concat(parts: &Vec<&str>) -> (whole: String)
    ensures
        whole@ == concat_upto(parts@, parts.len() as nat),
{
    let mut whole = String::new();
    let mut i: usize = 0;
    while i < parts.len()
        invariant
            i <= parts.len(),
            whole@ == concat_upto(parts@, i as nat),
        decreases parts.len() - i,
    {
        whole.append(parts[i]);
        i += 1;
    }
    whole
}

/// The first `k` texts of a list, one after the other.
pub open spec fn concat_upto(parts: Seq<&str>, k: nat) -> Seq<char>
    decreases k,
{
    if k == 0 || k > parts.len() {
        Seq::empty()
    } else {
        concat_upto(parts, (k - 1) as nat) + parts[k - 1]@
    }
}

/// The notes below a list item, from the first `k` matches in the text of
/// the group that holds them.
pub open spec fn details_upto(
    flow: ReflowStrategy,
    text: Seq<char>,
    matches: Seq<Seq<Option<(usize, usize)>>>,
    k: nat,
) -> Result<Seq<Seq<char>>, ParseError>
    decreases k,
{
    if k == 0 || k > matches.len() {
        Ok(Seq::empty())
    } else {
        match details_upto(flow, text, matches, (k - 1) as nat) {
            Err(e) => Err(e),
            Ok(before) => match reflowed_group(flow, text, matches[k - 1], 1) {
                Err(e) => Err(e),
                Ok(detail) => Ok(before.push(detail)),
            },
        }
    }
}

/// The notes below a list item: none where the group for them took no part
/// in the match, else one for each match of the expression for a note.
pub open spec fn details_of(
    flow: ReflowStrategy,
    sub: Seq<char>,
    text: Seq<char>,
    spans: Seq<Option<(usize, usize)>>,
) -> Result<Seq<Seq<char>>, ParseError> {
    match group_of(text, spans, 3) {
        Err(ParseError::MissingGroup) => Ok(Seq::empty()),
        Err(e) => Err(e),
        Ok(notes) => match matches_of(sub, notes) {
            Err(e) => Err(e),
            Ok(matches) => details_upto(flow, notes, matches, matches.len()),
        },
    }
}

/// The question that a match stands for.
#[verifier::opaque]
pub open spec fn item_of(
    cut: Cut,
    flow: ReflowStrategy,
    text: Seq<char>,
    spans: Seq<Option<(usize, usize)>>,
) -> Result<VariantView, ParseError> {
    match cut {
        Cut::Term { flipped } => match reflowed_group(flow, text, spans, 1) {
            Err(e) => Err(e),
            Ok(first) => match reflowed_group(flow, text, spans, 2) {
                Err(e) => Err(e),
                Ok(second) => Ok(
                    if flipped {
                        VariantView::Term { term: second, definition: first, inverted: false }
                    } else {
                        VariantView::Term { term: first, definition: second, inverted: false }
                    },
                ),
            },
        },
        Cut::List { sub_pattern } => match details_of(flow, sub_pattern, text, spans) {
            Err(e) => Err(e),
            Ok(details) => match group_of(text, spans, 1) {
                Err(e) => Err(e),
                Ok(numeral) => match parsed_order(numeral) {
                    None => Err(ParseError::BadNumber),
                    Some(order) => match reflowed_group(flow, text, spans, 2) {
                        Err(e) => Err(e),
                        Ok(item) => Ok(VariantView::List { order, item, details }),
                    },
                },
            },
        },
        Cut::Bullet => match reflowed_group(flow, text, spans, 1) {
            Err(e) => Err(e),
            Ok(body) => Ok(VariantView::Bullet { body }),
        },
    }
}

/// What the first `k` matches give: the text from which each match is gone
/// wherever it occurs, and the question for each match.
pub open spec fn cut_upto(
    cut: Cut,
    flow: ReflowStrategy,
    text: Seq<char>,
    matches: Seq<Seq<Option<(usize, usize)>>>,
    k: nat,
) -> Result<(Seq<char>, Seq<VariantView>), ParseError>
    decreases k,
{
    if k == 0 || k > matches.len() {
        Ok((text, Seq::empty()))
    } else {
        match cut_upto(cut, flow, text, matches, (k - 1) as nat) {
            Err(e) => Err(e),
            Ok((rest, found)) => match group_of(text, matches[k - 1], 0) {
                Err(e) => Err(e),
                Ok(whole) => match item_of(cut, flow, text, matches[k - 1]) {
                    Err(e) => Err(e),
                    Ok(item) => Ok((without(rest, whole), found.push(item))),
                },
            },
        }
    }
}

/// What an expression cuts out of a text: the rest of the text and the
/// questions, one for each match.
pub open spec fn cut_out(cut: Cut, flow: ReflowStrategy, pattern: Seq<char>, text: Seq<char>) -> Result<
    (Seq<char>, Seq<VariantView>),
    ParseError,
> {
    match matches_of(pattern, text) {
        Err(e) => Err(e),
        Ok(matches) => cut_upto(cut, flow, text, matches, matches.len()),
    }
}

/// What a list of questions asks.
pub open spec fn payloads(questions: Seq<Question>) -> Seq<VariantView> {
    Seq::new(questions.len(), |i: int| questions[i]@.data)
}

/// Every question of a list was never asked.
pub open spec fn all_fresh(questions: Seq<Question>) -> bool {
    forall|i: int| 0 <= i < questions.len() ==> (#[trigger] questions[i]).is_fresh()
}

/// What was cut out in code is what was to be cut out.
pub open spec fn cut_as(
    found: Result<(String, Vec<Question>), ParseError>,
    wanted: Result<(Seq<char>, Seq<VariantView>), ParseError>,
) -> bool {
    match found {
        Ok((rest, questions)) => wanted == Ok::<(Seq<char>, Seq<VariantView>), ParseError>(
            (rest@, payloads(questions@)),
        ) && all_fresh(questions@),
        Err(e) => wanted == Err::<(Seq<char>, Seq<VariantView>), ParseError>(e),
    }
}

/// What is cut out of the notes, as the code holds it.
pub enum Kind {
    Term { flipped: bool },
    List { sub_pattern: String },
    Bullet,
}

impl View for Kind {
    type V = Cut;

    open spec fn view(&self) -> Cut {
        match self {
            Kind::Term { flipped } => Cut::Term { flipped: *flipped },
            Kind::List { sub_pattern } => Cut::List { sub_pattern: sub_pattern@ },
            Kind::Bullet => Cut::Bullet,
        }
    }
}

/// The notes below a list item.
fn details(flow: &ReflowStrategy, sub: &str, text: &str, spans: &Spans) -> (found: Result<
    Vec<String>,
    ParseError,
>)
    ensures
        match found {
            Ok(notes) => details_of(*flow, sub@, text@, spans@) == Ok::<
                Seq<Seq<char>>,
                ParseError,
            >(notes.deep_view()),
            Err(e) => details_of(*flow, sub@, text@, spans@) == Err::<Seq<Seq<char>>, ParseError>(
                e,
            ),
        },
{
    let below = match group(text, spans, 3) {
        Err(ParseError::MissingGroup) => {
            let none: Vec<String> = Vec::new();
            assert(none.deep_view() =~= Seq::<Seq<char>>::empty());
            return Ok(none);
        },
        Err(e) => {
            return Err(e);
        },
        Ok(below) => below,
    };
    let matches = match find_all(sub, below) {
        Err(e) => {
            return Err(e);
        },
        Ok(matches) => matches,
    };
    let ghost all = spans_view(matches@);
    let mut notes: Vec<String> = Vec::new();
    let mut i: usize = 0;
    assert(notes.deep_view() =~= Seq::<Seq<char>>::empty());
    while i < matches.len()
        invariant
            i <= matches.len(),
            all == spans_view(matches@),
            group_of(text@, spans@, 3) == Ok::<Seq<char>, ParseError>(below@),
            matches_of(sub@, below@) == Ok::<Seq<Seq<Option<(usize, usize)>>>, ParseError>(all),
            details_upto(*flow, below@, all, i as nat) == Ok::<Seq<Seq<char>>, ParseError>(
                notes.deep_view(),
            ),
        decreases matches.len() - i,
    {
        assert(all[i as int] == matches[i as int]@);
        let ghost before = notes.deep_view();
        match reflow_group(flow, below, &matches[i], 1) {
            Err(e) => {
                proof {
                    assert(details_upto(*flow, below@, all, (i + 1) as nat) == Err::<
                        Seq<Seq<char>>,
                        ParseError,
                    >(e));
                    lemma_details_fail(*flow, below@, all, (i + 1) as nat, matches.len() as nat);
                }
                return Err(e);
            },
            Ok(note) => {
                notes.push(note);
                assert(notes.deep_view() =~= before.push(note@));
            },
        }
        i += 1;
    }
    Ok(notes)
}

/// Once a note fails, the notes fail with the same error.
proof fn lemma_details_fail(
    flow: ReflowStrategy,
    text: Seq<char>,
    matches: Seq<Seq<Option<(usize, usize)>>>,
    k: nat,
    n: nat,
)
    requires
        k <= n <= matches.len(),
        details_upto(flow, text, matches, k) is Err,
    ensures
        details_upto(flow, text, matches, n) == details_upto(flow, text, matches, k),
    decreases n - k,
{
    if k < n {
        lemma_details_fail(flow, text, matches, k, (n - 1) as nat);
    }
}

/// Once a match fails, all that is cut out fails with the same error.
proof fn lemma_cut_fail(
    cut: Cut,
    flow: ReflowStrategy,
    text: Seq<char>,
    matches: Seq<Seq<Option<(usize, usize)>>>,
    k: nat,
    n: nat,
)
    requires
        k <= n <= matches.len(),
        cut_upto(cut, flow, text, matches, k) is Err,
    ensures
        cut_upto(cut, flow, text, matches, n) == cut_upto(cut, flow, text, matches, k),
    decreases n - k,
{
    if k < n {
        lemma_cut_fail(cut, flow, text, matches, k, (n - 1) as nat);
    }
}

/// The question that a match stands for.
fn item(kind: &Kind, flow: &ReflowStrategy, text: &str, spans: &Spans) -> (found: Result<
    Question,
    ParseError,
>)
    ensures
        match found {
            Ok(question) => item_of(kind@, *flow, text@, spans@) == Ok::<VariantView, ParseError>(
                question@.data,
            ) && question.is_fresh(),
            Err(e) => item_of(kind@, *flow, text@, spans@) == Err::<VariantView, ParseError>(e),
        },
{
    reveal(item_of);
    match kind {
        Kind::Term { flipped } => {
            let first = match reflow_group(flow, text, spans, 1) {
                Err(e) => {
                    return Err(e);
                },
                Ok(first) => first,
            };
            let second = match reflow_group(flow, text, spans, 2) {
                Err(e) => {
                    return Err(e);
                },
                Ok(second) => second,
            };
            if *flipped {
                Ok(Term::new(second, first))
            } else {
                Ok(Term::new(first, second))
            }
        },
        Kind::List { sub_pattern } => {
            let notes = match details(flow, sub_pattern.as_str(), text, spans) {
                Err(e) => {
                    return Err(e);
                },
                Ok(notes) => notes,
            };
            let numeral = match group(text, spans, 1) {
                Err(e) => {
                    return Err(e);
                },
                Ok(numeral) => numeral,
            };
            let order = match parse_order(numeral) {
                None => {
                    return Err(ParseError::BadNumber);
                },
                Some(order) => order,
            };
            let body = match reflow_group(flow, text, spans, 2) {
                Err(e) => {
                    return Err(e);
                },
                Ok(body) => body,
            };
            Ok(List::new(order, body, notes))
        },
        Kind::Bullet => {
            match reflow_group(flow, text, spans, 1) {
                Err(e) => Err(e),
                Ok(body) => Ok(Bullet::new(body)),
            }
        },
    }
}

/// Cuts the matches of an expression out of a text: gives the rest of the
/// text, from which each match is gone wherever it occurs, and a question
/// for each match.
pub fn cut_questions(kind: &Kind, flow: &ReflowStrategy, pattern: &str, src: &str) -> (found:
    Result<(String, Vec<Question>), ParseError>)
    ensures
        cut_as(found, cut_out(kind@, *flow, pattern@, src@)),
{
    let matches = match find_all(pattern, src) {
        Err(e) => {
            return Err(e);
        },
        Ok(matches) => matches,
    };
    let ghost all = spans_view(matches@);
    let mut remainder = String::from_str(src);
    let mut questions: Vec<Question> = Vec::new();
    let mut i: usize = 0;
    assert(payloads(questions@) =~= Seq::<VariantView>::empty());
    while i < matches.len()
        invariant
            i <= matches.len(),
            all == spans_view(matches@),
            matches_of(pattern@, src@) == Ok::<Seq<Seq<Option<(usize, usize)>>>, ParseError>(all),
            cut_upto(kind@, *flow, src@, all, i as nat) == Ok::<
                (Seq<char>, Seq<VariantView>),
                ParseError,
            >((remainder@, payloads(questions@))),
            all_fresh(questions@),
        decreases matches.len() - i,
    {
        assert(all[i as int] == matches[i as int]@);
        let ghost before = payloads(questions@);
        let whole = match group(src, &matches[i], 0) {
            Err(e) => {
                proof {
                    assert(cut_upto(kind@, *flow, src@, all, (i + 1) as nat) == Err::<
                        (Seq<char>, Seq<VariantView>),
                        ParseError,
                    >(e));
                    lemma_cut_fail(kind@, *flow, src@, all, (i + 1) as nat, matches.len() as nat);
                }
                return Err(e);
            },
            Ok(whole) => whole,
        };
        let question = match item(kind, flow, src, &matches[i]) {
            Err(e) => {
                proof {
                    assert(cut_upto(kind@, *flow, src@, all, (i + 1) as nat) == Err::<
                        (Seq<char>, Seq<VariantView>),
                        ParseError,
                    >(e));
                    lemma_cut_fail(kind@, *flow, src@, all, (i + 1) as nat, matches.len() as nat);
                }
                return Err(e);
            },
            Ok(question) => question,
        };
        let ghost rest = remainder@;
        remainder = remove_all(remainder.as_str(), whole);
        questions.push(question);
        assert(payloads(questions@) =~= before.push(question@.data));
        assert(cut_upto(kind@, *flow, src@, all, (i + 1) as nat) == Ok::<
            (Seq<char>, Seq<VariantView>),
            ParseError,
        >((without(rest, whole@), before.push(question@.data))));
        i += 1;
    }
    Ok((remainder, questions))
}

impl Crawler {
    /// The flash cards of a text, and the text without them. Without rules
    /// for flash cards there are none, and the text stays as it is.
    pub open spec fn terms_in(&self, src: Seq<char>) -> Result<
        (Seq<char>, Seq<VariantView>),
        ParseError,
    > {
        match self.term {
            None => Ok((src, Seq::empty())),
            Some(rules) => cut_out(
                Cut::Term { flipped: rules.flipped == Some(true) },
                self.flow,
                term_pattern(rules),
                src,
            ),
        }
    }

    /// The list items of a text, and the text without them.
    pub open spec fn lists_in(&self, src: Seq<char>) -> Result<
        (Seq<char>, Seq<VariantView>),
        ParseError,
    > {
        match self.list {
            None => Ok((src, Seq::empty())),
            Some(rules) => cut_out(
                Cut::List { sub_pattern: sub_pattern(rules) },
                self.flow,
                list_pattern(rules),
                src,
            ),
        }
    }

    /// The free-standing facts of a text, and the text without them.
    pub open spec fn bullets_in(&self, src: Seq<char>) -> Result<
        (Seq<char>, Seq<VariantView>),
        ParseError,
    > {
        match self.bullet {
            None => Ok((src, Seq::empty())),
            Some(rules) => cut_out(Cut::Bullet, self.flow, bullet_pattern(rules), src),
        }
    }

    /// The questions of a text: its flash cards, then the list items of
    /// what the flash cards leave, then the facts of what the list items
    /// leave.
    pub open spec fn questions_in(&self, src: Seq<char>) -> Result<Seq<VariantView>, ParseError> {
        match self.terms_in(src) {
            Err(e) => Err(e),
            Ok((rest, terms)) => match self.lists_in(rest) {
                Err(e) => Err(e),
                Ok((rest, lists)) => match self.bullets_in(rest) {
                    Err(e) => Err(e),
                    Ok((_, bullets)) => Ok(terms + lists + bullets),
                },
            },
        }
    }

    /// Parse flashcards from str
    pub fn parse_terms(&self, src: &str) -> (found: Result<(String, Vec<Question>), ParseError>)
        ensures
            cut_as(found, self.terms_in(src@)),
    {
        match &self.term {
            Some(rules) => {
                let pattern = concat(
                    &vec![
                        rules.leader.as_str(),
                        "(",
                        rules.term.as_str(),
                        ")",
                        rules.separator.as_str(),
                        "(",
                        rules.definition.as_str(),
                        ")",
                        rules.terminator.as_str(),
                    ],
                );
                proof {
                    reveal_with_fuel(concat_upto, 10);
                    assert(pattern@ =~= term_pattern(*rules));
                }
                let flipped = match rules.flipped {
                    Some(flipped) => flipped,
                    None => false,
                };
                cut_questions(&Kind::Term { flipped }, &self.flow, pattern.as_str(), src)
            },
            None => {
                let none: Vec<Question> = Vec::new();
                assert(payloads(none@) =~= Seq::<VariantView>::empty());
                Ok((String::from_str(src), none))
            },
        }
    }

    /// Parse list items from str
    pub fn parse_lists(&self, src: &str) -> (found: Result<(String, Vec<Question>), ParseError>)
        ensures
            cut_as(found, self.lists_in(src@)),
    {
        match &self.list {
            Some(rules) => {
                let pattern = concat(
                    &vec![
                        "(",
                        rules.numerals.as_str(),
                        ")",
                        rules.leader.as_str(),
                        " (",
                        rules.body.as_str(),
                        ")\\s*(",
                        rules.sub_leader.as_str(),
                        rules.body.as_str(),
                        ")*",
                        rules.terminator.as_str(),
                    ],
                );
                let sub = concat(
                    &vec![
                        rules.sub_leader.as_str(),
                        "(",
                        rules.body.as_str(),
                        ")",
                        rules.sub_terminator.as_str(),
                    ],
                );
                proof {
                    reveal_with_fuel(concat_upto, 12);
                    assert(pattern@ =~= list_pattern(*rules));
                    assert(sub@ =~= sub_pattern(*rules));
                }
                cut_questions(&Kind::List { sub_pattern: sub }, &self.flow, pattern.as_str(), src)
            },
            None => {
                let none: Vec<Question> = Vec::new();
                assert(payloads(none@) =~= Seq::<VariantView>::empty());
                Ok((String::from_str(src), none))
            },
        }
    }

    /// Parse free-standing facts from str
    pub fn parse_bullets(&self, src: &str) -> (found: Result<(String, Vec<Question>), ParseError>)
        ensures
            cut_as(found, self.bullets_in(src@)),
    {
        match &self.bullet {
            Some(rules) => {
                let pattern = concat(
                    &vec![rules.leader.as_str(), "(", rules.body.as_str(), ")", rules.terminator.as_str()],
                );
                proof {
                    reveal_with_fuel(concat_upto, 6);
                    assert(pattern@ =~= bullet_pattern(*rules));
                }
                cut_questions(&Kind::Bullet, &self.flow, pattern.as_str(), src)
            },
            None => {
                let none: Vec<Question> = Vec::new();
                assert(payloads(none@) =~= Seq::<VariantView>::empty());
                Ok((String::from_str(src), none))
            },
        }
    }

    /// The questions of a text, in the order of their kinds: flash cards,
    /// list items, facts.
    pub fn parse_questions(&self, src: &str) -> (found: Result<Vec<Question>, ParseError>)
        ensures
            match found {
                Ok(questions) => self.questions_in(src@) == Ok::<Seq<VariantView>, ParseError>(
                    payloads(questions@),
                ) && all_fresh(questions@),
                Err(e) => self.questions_in(src@) == Err::<Seq<VariantView>, ParseError>(e),
            },
    {
        let (src, mut questions) = match self.parse_terms(src) {
            Err(e) => {
                return Err(e);
            },
            Ok(found) => found,
        };
        let ghost terms = payloads(questions@);
        let (src, mut chunk) = match self.parse_lists(src.as_str()) {
            Err(e) => {
                return Err(e);
            },
            Ok(found) => found,
        };
        let ghost lists = payloads(chunk@);
        questions.append(&mut chunk);
        let (_, mut chunk) = match self.parse_bullets(src.as_str()) {
            Err(e) => {
                return Err(e);
            },
            Ok(found) => found,
        };
        let ghost bullets = payloads(chunk@);
        questions.append(&mut chunk);
        assert(payloads(questions@) =~= terms + lists + bullets);
        Ok(questions)
    }
}

/// The expression for sections: a heading of markers and a blank at the
/// start of a line, the name, white space, and the body, up to the next
/// heading with as many markers or the end of the text; heading, name and
/// body each a group.
pub open spec fn section_pattern(rules: SectionConfig) -> Seq<char> {
    "(^\\"@ + rules.marker@ + "+ )("@ + rules.name@ + ")\\s("@ + rules.body@
        + ")((?=^\\1)|\\z)"@
}

/// The expression for what a section holds before its first heading: the
/// body up to a heading or the end of the text, the body a group.
pub open spec fn own_pattern(rules: SectionConfig) -> Seq<char> {
    "("@ + rules.body@ + ")(^\\"@ + rules.marker@ + "+ |\\z)"@
}

impl Crawler {
    /// The sections of a text, each with the sections found in its body.
    /// Without rules for sections there are none.
    pub open spec fn sections_in(&self, src: Seq<char>) -> Result<Seq<Draft>, ParseError>
        decreases encode_utf8(src).len(), 2nat, 0nat,
    {
        match self.section {
            None => Ok(Seq::empty()),
            Some(rules) => match matches_of(section_pattern(rules), src) {
                Err(e) => Err(e),
                Ok(matches) => self.sections_upto(rules, src, matches, matches.len()),
            },
        }
    }

    /// The sections that the first `k` matches stand for.
    pub open spec fn sections_upto(
        &self,
        rules: SectionConfig,
        src: Seq<char>,
        matches: Seq<Seq<Option<(usize, usize)>>>,
        k: nat,
    ) -> Result<Seq<Draft>, ParseError>
        decreases encode_utf8(src).len(), 1nat, k,
    {
        if k == 0 || k > matches.len() {
            Ok(Seq::empty())
        } else {
            match self.sections_upto(rules, src, matches, (k - 1) as nat) {
                Err(e) => Err(e),
                Ok(before) => match self.section_of(rules, src, matches[k - 1]) {
                    Err(e) => Err(e),
                    Ok(section) => Ok(before.push(section)),
                },
            }
        }
    }

    /// The section that a match stands for: its name, the sections found in
    /// its body, and the questions found in its body before the first
    /// heading. The body must be shorter than the text it was found in.
    pub open spec fn section_of(
        &self,
        rules: SectionConfig,
        src: Seq<char>,
        spans: Seq<Option<(usize, usize)>>,
    ) -> Result<Draft, ParseError>
        decreases encode_utf8(src).len(), 0nat, 0nat,
    {
        match group_of(src, spans, 2) {
            Err(e) => Err(e),
            Ok(name) => match group_of(src, spans, 3) {
                Err(e) => Err(e),
                Ok(body) => if encode_utf8(body).len() >= encode_utf8(src).len() {
                    Err(ParseError::Endless)
                } else {
                    match self.sections_in(body) {
                        Err(e) => Err(e),
                        Ok(children) => match first_match_of(own_pattern(rules), body) {
                            Err(e) => Err(e),
                            Ok(None) => Err(ParseError::MissingGroup),
                            Ok(Some(own)) => match group_of(body, own, 1) {
                                Err(e) => Err(e),
                                Ok(text) => match self.questions_in(text) {
                                    Err(e) => Err(e),
                                    Ok(questions) => Ok(Draft { name, questions, children }),
                                },
                            },
                        },
                    }
                },
            },
        }
    }

    /// Once a match fails, the sections fail with the same error.
    proof fn lemma_sections_fail(
        &self,
        rules: SectionConfig,
        src: Seq<char>,
        matches: Seq<Seq<Option<(usize, usize)>>>,
        k: nat,
        n: nat,
    )
        requires
            k <= n <= matches.len(),
            self.sections_upto(rules, src, matches, k) is Err,
        ensures
            self.sections_upto(rules, src, matches, n) == self.sections_upto(rules, src, matches, k),
        decreases n - k,
    {
        if k < n {
            self.lemma_sections_fail(rules, src, matches, k, (n - 1) as nat);
        }
    }

    /// The section that a match stands for.
    fn parse_section(&self, rules: &SectionConfig, own: &str, src: &str, spans: &Spans) -> (found:
        Result<Outline, ParseError>)
        requires
            self.section == Some(*rules),
            own@ == own_pattern(*rules),
        ensures
            match found {
                Ok(notes) => self.section_of(*rules, src@, spans@) == Ok::<Draft, ParseError>(
                    notes@.draft(),
                ) && notes@.pristine(),
                Err(e) => self.section_of(*rules, src@, spans@) == Err::<Draft, ParseError>(e),
            },
        decreases encode_utf8(src@).len(), 0nat,
    {
        let name = match group(src, spans, 2) {
            Err(e) => {
                return Err(e);
            },
            Ok(name) => name,
        };
        let body = match group(src, spans, 3) {
            Err(e) => {
                return Err(e);
            },
            Ok(body) => body,
        };
        assert(body.spec_bytes() == encode_utf8(body@));
        assert(src.spec_bytes() == encode_utf8(src@));
        if body.as_bytes().len() >= src.as_bytes().len() {
            return Err(ParseError::Endless);
        }
        let children = match self.parse_sections(body) {
            Err(e) => {
                return Err(e);
            },
            Ok(children) => children,
        };
        let first = match first_match(own, body) {
            Err(e) => {
                return Err(e);
            },
            Ok(None) => {
                return Err(ParseError::MissingGroup);
            },
            Ok(Some(first)) => first,
        };
        let text = match group(body, &first, 1) {
            Err(e) => {
                return Err(e);
            },
            Ok(text) => text,
        };
        let questions = match self.parse_questions(text) {
            Err(e) => {
                return Err(e);
            },
            Ok(questions) => questions,
        };
        let notes = Outline::new(String::from_str(name), children, questions);
        proof {
            notes.lemma_view();
            assert(notes@.draft().questions =~= payloads(questions@));
            assert(notes@.children =~= outline_views(children@));
        }
        Ok(notes)
    }

    /// Get section
    pub fn parse_sections(&self, src: &str) -> (found: Result<Vec<Outline>, ParseError>)
        ensures
            match found {
                Ok(notes) => self.sections_in(src@) == Ok::<Seq<Draft>, ParseError>(
                    OutlineView::drafts(outline_views(notes@)),
                ) && forall|i: int| 0 <= i < notes.len() ==> (#[trigger] notes[i])@.pristine(),
                Err(e) => self.sections_in(src@) == Err::<Seq<Draft>, ParseError>(e),
            },
        decreases encode_utf8(src@).len(), 1nat,
    {
        let rules = match &self.section {
            Some(rules) => rules,
            None => {
                let none: Vec<Outline> = Vec::new();
                assert(outline_views(none@) =~= Seq::<OutlineView>::empty());
                return Ok(none);
            },
        };
        let pattern = concat(
            &vec![
                "(^\\",
                rules.marker.as_str(),
                "+ )(",
                rules.name.as_str(),
                ")\\s(",
                rules.body.as_str(),
                ")((?=^\\1)|\\z)",
            ],
        );
        let own = concat(
            &vec!["(", rules.body.as_str(), ")(^\\", rules.marker.as_str(), "+ |\\z)"],
        );
        proof {
            reveal_with_fuel(concat_upto, 8);
            assert(pattern@ =~= section_pattern(*rules));
            assert(own@ =~= own_pattern(*rules));
        }
        let matches = match find_all(pattern.as_str(), src) {
            Err(e) => {
                return Err(e);
            },
            Ok(matches) => matches,
        };
        let ghost all = spans_view(matches@);
        let mut notes: Vec<Outline> = Vec::new();
        let mut i: usize = 0;
        assert(outline_views(notes@) =~= Seq::<OutlineView>::empty());
        while i < matches.len()
            invariant
                i <= matches.len(),
                all == spans_view(matches@),
                self.section == Some(*rules),
                own@ == own_pattern(*rules),
                matches_of(section_pattern(*rules), src@) == Ok::<
                    Seq<Seq<Option<(usize, usize)>>>,
                    ParseError,
                >(all),
                self.sections_upto(*rules, src@, all, i as nat) == Ok::<Seq<Draft>, ParseError>(
                    OutlineView::drafts(outline_views(notes@)),
                ),
                forall|k: int| 0 <= k < notes.len() ==> (#[trigger] notes[k])@.pristine(),
            decreases matches.len() - i,
        {
            assert(all[i as int] == matches[i as int]@);
            let ghost before = outline_views(notes@);
            match self.parse_section(rules, own.as_str(), src, &matches[i]) {
                Err(e) => {
                    proof {
                        assert(self.sections_upto(*rules, src@, all, (i + 1) as nat) == Err::<
                            Seq<Draft>,
                            ParseError,
                        >(e));
                        self.lemma_sections_fail(
                            *rules,
                            src@,
                            all,
                            (i + 1) as nat,
                            matches.len() as nat,
                        );
                    }
                    return Err(e);
                },
                Ok(section) => {
                    proof {
                        OutlineView::lemma_drafts_push(before, section@);
                    }
                    notes.push(section);
                    assert(outline_views(notes@) =~= before.push(section@));
                },
            }
            i += 1;
        }
        Ok(notes)
    }

    /// The notes of a document: a node that bears the name of the document
    /// and holds no questions, with the sections of the text below it.
    pub fn parse_document(&self, name: String, src: &str) -> (found: Result<Outline, ParseError>)
        ensures
            match found {
                Ok(notes) => notes@.name == name@ && notes@.questions.len() == 0
                    && self.sections_in(src@) == Ok::<Seq<Draft>, ParseError>(
                    OutlineView::drafts(notes@.children),
                ) && notes@.pristine(),
                Err(e) => self.sections_in(src@) == Err::<Seq<Draft>, ParseError>(e),
            },
    {
        let children = match self.parse_sections(src) {
            Err(e) => {
                return Err(e);
            },
            Ok(children) => children,
        };
        let notes = Outline::new(name, children, Vec::new());
        proof {
            notes.lemma_view();
            assert(notes@.children =~= outline_views(children@));
        }
        Ok(notes)
    }
}

} // verus!

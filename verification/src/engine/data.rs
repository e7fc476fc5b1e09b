use crate::engine::logic::{answers_match, check_answer};
use crate::engine::text::{same_texts, str_eq};
use std::time::SystemTime;
use vstd::prelude::*;

verus! {

/// The weight of one whole answer in hint cost: a penalty of `HINT_SCALE`
/// cancels one correct answer, and a hint cost is a number of millionths.
pub const HINT_SCALE: u32 = 1_000_000;

/// The highest mastery a question can reach.
pub const MAX_MASTERY: u8 = 10;

/// `std::time::SystemTime`, a moment that the clock has read. It is carried
/// along and compared, never looked into.
#[verifier::external_type_specification]
#[verifier::external_body]
pub struct ExSystemTime(std::time::SystemTime);

/// `SystemTime` is `Copy`: its `clone` hands back the same moment.
pub assume_specification[ <SystemTime as Clone>::clone ](t: &SystemTime) -> (r: SystemTime)
    ensures
        r == *t,
;

/// `SystemTime::now`: the reading of the system clock. Nothing is claimed of
/// the value, which differs from call to call.
#[verifier::external_body]
fn clock_now() -> SystemTime {
    SystemTime::now()
}

/// `Uuid::new_v4`, as the 128 bits of the identifier that `Uuid::as_u128`
/// gives. Nothing is claimed of the value, which the system draws at random;
/// the call gives up only where the system has no random bytes to give.
#[verifier::external_body]
fn fresh_id() -> u128 {
    uuid::Uuid::new_v4().as_u128()
}

/// The comparison policy used to judge a candidate answer.
#[derive(Clone, Copy, Debug, PartialEq, Eq, Structural)]
pub enum Strictness {
    Exact,
    Trimmed,
    Caseless,
}

/// What a question's payload holds, as mathematical values.
pub enum VariantView {
    Term { term: Seq<char>, definition: Seq<char>, inverted: bool },
    List { order: u32, item: Seq<char>, details: Seq<Seq<char>> },
    Bullet { body: Seq<char> },
}

/// Flash cards: a term and its definition, asked in either direction.
#[derive(Clone, Debug, Hash)]
pub struct Term {
    pub term: String,
    pub definition: String,
    pub inverted: bool,
}

/// One numbered item of a list, with the notes that hang below it.
#[derive(Clone, Debug, Hash)]
pub struct List {
    pub order: u32,
    pub item: String,
    pub details: Vec<String>,
}

/// A free-standing fact.
#[derive(Clone, Debug, Hash)]
pub struct Bullet {
    pub body: String,
}

/// The payload of a question.
#[derive(Clone, Debug, Hash)]
pub enum QuestionVariant {
    Term(Term),
    List(List),
    Bullet(Bullet),
}

impl View for Term {
    type V = VariantView;

    open spec fn view(&self) -> VariantView {
        VariantView::Term {
            term: self.term@,
            definition: self.definition@,
            inverted: self.inverted,
        }
    }
}

impl View for List {
    type V = VariantView;

    open spec fn view(&self) -> VariantView {
        VariantView::List {
            order: self.order,
            item: self.item@,
            details: self.details.deep_view(),
        }
    }
}

impl View for Bullet {
    type V = VariantView;

    open spec fn view(&self) -> VariantView {
        VariantView::Bullet { body: self.body@ }
    }
}

impl View for QuestionVariant {
    type V = VariantView;

    open spec fn view(&self) -> VariantView {
        match self {
            QuestionVariant::Term(t) => t@,
            QuestionVariant::List(l) => l@,
            QuestionVariant::Bullet(b) => b@,
        }
    }
}

impl PartialEq for Term {
    fn eq(&self, other: &Self) -> (r: bool) {
        self.term == other.term && self.definition == other.definition && self.inverted
            == other.inverted
    }
}

impl Eq for Term {

}

impl vstd::std_specs::cmp::PartialEqSpecImpl for Term {
    open spec fn obeys_eq_spec() -> bool {
        true
    }

    open spec fn eq_spec(&self, other: &Self) -> bool {
        self@ == other@
    }
}

impl PartialEq for List {
    fn eq(&self, other: &Self) -> (r: bool) {
        self.order == other.order && self.item == other.item && same_texts(
            &self.details,
            &other.details,
        )
    }
}

impl Eq for List {

}

impl vstd::std_specs::cmp::PartialEqSpecImpl for List {
    open spec fn obeys_eq_spec() -> bool {
        true
    }

    open spec fn eq_spec(&self, other: &Self) -> bool {
        self@ == other@
    }
}

impl PartialEq for Bullet {
    fn eq(&self, other: &Self) -> (r: bool) {
        self.body == other.body
    }
}

impl Eq for Bullet {

}

impl vstd::std_specs::cmp::PartialEqSpecImpl for Bullet {
    open spec fn obeys_eq_spec() -> bool {
        true
    }

    open spec fn eq_spec(&self, other: &Self) -> bool {
        self@ == other@
    }
}

impl PartialEq for QuestionVariant {
    fn eq(&self, other: &Self) -> (r: bool) {
        match (self, other) {
            (QuestionVariant::Term(a), QuestionVariant::Term(b)) => a == b,
            (QuestionVariant::List(a), QuestionVariant::List(b)) => a == b,
            (QuestionVariant::Bullet(a), QuestionVariant::Bullet(b)) => a == b,
            _ => false,
        }
    }
}

impl Eq for QuestionVariant {

}

impl vstd::std_specs::cmp::PartialEqSpecImpl for QuestionVariant {
    open spec fn obeys_eq_spec() -> bool {
        true
    }

    open spec fn eq_spec(&self, other: &Self) -> bool {
        self@ == other@
    }
}

/// One step up on the mastery scale, which stops at `MAX_MASTERY`.
pub open spec fn raised(mastery: u8) -> u8 {
    if mastery < MAX_MASTERY {
        (mastery + 1) as u8
    } else {
        mastery
    }
}

/// One step down on the mastery scale, which stops at zero.
pub open spec fn lowered(mastery: u8) -> u8 {
    if mastery > 0 {
        (mastery - 1) as u8
    } else {
        mastery
    }
}

/// One fact with its mastery counter and lifetime statistics.
#[derive(Clone, Debug)]
pub struct Question {
    pub id: u128,
    pub data: QuestionVariant,
    pub comp_level: Strictness,
    pub mastery: u8,
    pub correct: usize,
    pub seen: usize,
    /// The hint cost of all answers so far, in millionths of an answer.
    pub hints: u64,
    pub last_correct: SystemTime,
}

/// A question as mathematical values.
pub struct QuestionView {
    pub id: u128,
    pub data: VariantView,
    pub comp_level: Strictness,
    pub mastery: u8,
    pub correct: usize,
    pub seen: usize,
    pub hints: u64,
    pub last_correct: SystemTime,
}

impl View for Question {
    type V = QuestionView;

    open spec fn view(&self) -> QuestionView {
        QuestionView {
            id: self.id,
            data: self.data@,
            comp_level: self.comp_level,
            mastery: self.mastery,
            correct: self.correct,
            seen: self.seen,
            hints: self.hints,
            last_correct: self.last_correct,
        }
    }
}

/// Two questions are equal when they ask the same thing, whatever their
/// identifiers and statistics.
impl PartialEq for Question {
    fn eq(&self, other: &Self) -> (r: bool) {
        self.data == other.data
    }
}

impl Eq for Question {

}

impl vstd::std_specs::cmp::PartialEqSpecImpl for Question {
    open spec fn obeys_eq_spec() -> bool {
        true
    }

    open spec fn eq_spec(&self, other: &Self) -> bool {
        self@.data == other@.data
    }
}

impl QuestionView {
    /// A question that was never asked: trimmed comparison, no mastery, no
    /// statistics.
    pub open spec fn is_fresh(self) -> bool {
        &&& self.comp_level == Strictness::Trimmed
        &&& self.mastery == 0
        &&& self.correct == 0
        &&& self.seen == 0
        &&& self.hints == 0
    }

    /// Mastery is on its scale, and no more answers were right than were given.
    pub open spec fn wf(self) -> bool {
        self.mastery <= MAX_MASTERY && self.correct <= self.seen
    }

    /// Only flash cards can be asked so far.
    pub open spec fn is_term(self) -> bool {
        self.data is Term
    }

    /// The text shown when the question is asked.
    pub open spec fn prompt(self) -> Seq<char> {
        match self.data {
            VariantView::Term { term, definition, inverted } => if inverted {
                definition
            } else {
                term
            },
            _ => Seq::empty(),
        }
    }

    /// The answer that is expected.
    pub open spec fn expected(self) -> Seq<char> {
        match self.data {
            VariantView::Term { term, definition, inverted } => if inverted {
                term
            } else {
                definition
            },
            _ => Seq::empty(),
        }
    }

    /// Whether a candidate is judged correct.
    pub open spec fn accepts(self, candidate: Seq<char>) -> bool {
        answers_match(candidate, self.expected(), self.comp_level)
    }

    /// Whether one more answer with this hint penalty can be recorded.
    pub open spec fn has_room(self, penalty: u32) -> bool {
        self.seen < usize::MAX && self.hints + penalty <= u64::MAX
    }

    /// The question after an answer given at the moment `now`.
    pub open spec fn answered(self, candidate: Seq<char>, penalty: u32, now: SystemTime) -> Self {
        if self.accepts(candidate) {
            QuestionView {
                seen: (self.seen + 1) as usize,
                hints: (self.hints + penalty) as u64,
                correct: (self.correct + 1) as usize,
                mastery: raised(self.mastery),
                last_correct: now,
                ..self
            }
        } else {
            QuestionView {
                seen: (self.seen + 1) as usize,
                hints: (self.hints + penalty) as u64,
                mastery: lowered(self.mastery),
                ..self
            }
        }
    }

    /// The question after its last answer is marked correct in retrospect:
    /// nothing changes once every answer counts as correct; otherwise one more
    /// answer counts, and mastery rises twice, once for the step that the wrong
    /// answer took away and once for the answer now being right.
    pub open spec fn overridden(self) -> Self {
        if self.correct < self.seen {
            QuestionView {
                correct: (self.correct + 1) as usize,
                mastery: raised(raised(self.mastery)),
                ..self
            }
        } else {
            QuestionView { correct: self.seen, ..self }
        }
    }
}

/// One thing that can happen to a question: an answer, with its hint
/// penalty and the moment it is given, or the last answer being marked
/// correct after all.
pub enum Step {
    Answer(Seq<char>, u32, SystemTime),
    Override,
}

impl QuestionView {
    /// The question after a series of answers and overrides.
    pub open spec fn replayed(self, steps: Seq<Step>) -> Self
        decreases steps.len(),
    {
        if steps.len() == 0 {
            self
        } else {
            let before = self.replayed(steps.drop_last());
            match steps.last() {
                Step::Answer(candidate, penalty, now) => before.answered(candidate, penalty, now),
                Step::Override => before.overridden(),
            }
        }
    }

    /// Mastery stays on its scale, from zero to `MAX_MASTERY`, whatever is
    /// answered and overridden, and in whatever order.
    pub proof fn lemma_mastery_bounded(self, steps: Seq<Step>)
        requires
            self.mastery <= MAX_MASTERY,
        ensures
            0 <= self.replayed(steps).mastery <= MAX_MASTERY,
        decreases steps.len(),
    {
        if steps.len() > 0 {
            self.lemma_mastery_bounded(steps.drop_last());
        }
    }

    /// A wrong answer that is then marked correct leaves mastery two steps
    /// above where the wrong answer left it, and counts as one more correct
    /// answer. The scale ends at `MAX_MASTERY`, so this is for a question
    /// that was below the top of the scale when the wrong answer came.
    pub proof fn lemma_override_after_wrong(
        self,
        candidate: Seq<char>,
        penalty: u32,
        now: SystemTime,
    )
        requires
            self.wf(),
            self.has_room(penalty),
            !self.accepts(candidate),
            self.mastery < MAX_MASTERY,
        ensures
            self.answered(candidate, penalty, now).overridden().mastery == self.answered(
                candidate,
                penalty,
                now,
            ).mastery + 2,
            self.answered(candidate, penalty, now).overridden().correct == self.correct + 1,
            self.answered(candidate, penalty, now).overridden().seen == self.seen + 1,
    {
    }

    /// An override counts once: where no more than the last answer was
    /// wrong, a second override changes nothing.
    pub proof fn lemma_override_once(self)
        requires
            self.wf(),
            self.correct + 1 >= self.seen,
        ensures
            self.overridden().overridden() == self.overridden(),
    {
    }
}

impl Term {
    /// A flash card that was never asked, the term being asked for the
    /// definition.
    pub fn new(term: String, definition: String) -> (q: Question)
        ensures
            q@.data == (VariantView::Term { term: term@, definition: definition@, inverted: false }),
            q@.is_term(),
            q.is_fresh(),
    {
        Question::new(QuestionVariant::Term(Term { term, definition, inverted: false }))
    }

    /// Turns the card round: what was asked becomes what is expected.
    pub fn _flip(&mut self)
        ensures
            final(self).inverted == !old(self).inverted,
            final(self).term == old(self).term,
            final(self).definition == old(self).definition,
    {
        self.inverted = !self.inverted;
    }
}

impl List {
    /// A list item that was never asked.
    pub fn new(order: u32, item: String, details: Vec<String>) -> (q: Question)
        ensures
            q@.data == (VariantView::List { order, item: item@, details: details.deep_view() }),
            q.is_fresh(),
    {
        Question::new(QuestionVariant::List(List { order, item, details }))
    }
}

impl Bullet {
    /// A fact that was never asked.
    pub fn new(body: String) -> (q: Question)
        ensures
            q@.data == (VariantView::Bullet { body: body@ }),
            q.is_fresh(),
    {
        Question::new(QuestionVariant::Bullet(Bullet { body }))
    }
}

impl Question {
    /// A question that was never asked: trimmed comparison, no mastery, no
    /// statistics.
    pub open spec fn is_fresh(&self) -> bool {
        self@.is_fresh()
    }

    /// A question that was never asked, with an identifier of its own and the
    /// present moment as the time of its last correct answer.
    pub fn new(data: QuestionVariant) -> (q: Question)
        ensures
            q.data == data,
            q.is_fresh(),
            q@.wf(),
    {
        Question::with_id(data, fresh_id(), clock_now())
    }

    /// A question that was never asked, with the identifier and the time of
    /// the last correct answer that the caller gives it.
    pub fn with_id(data: QuestionVariant, id: u128, last_correct: SystemTime) -> (q: Question)
        ensures
            q.data == data,
            q.id == id,
            q.last_correct == last_correct,
            q.is_fresh(),
            q@.wf(),
    {
        Question {
            id,
            data,
            comp_level: Strictness::Trimmed,
            mastery: 0,
            correct: 0,
            seen: 0,
            hints: 0,
            last_correct,
        }
    }

    /// The text to show. Of the three kinds of question only flash cards can
    /// be asked.
    pub fn ask(&self) -> (text: &str)
        requires
            self@.is_term(),
        ensures
            text@ == self@.prompt(),
    {
        match &self.data {
            QuestionVariant::Term(t) => {
                if t.inverted {
                    t.definition.as_str()
                } else {
                    t.term.as_str()
                }
            },
            _ => "",
        }
    }

    /// The expected answer, without counting as an attempt.
    pub fn peek(&self) -> (text: &str)
        requires
            self@.is_term(),
        ensures
            text@ == self@.expected(),
    {
        match &self.data {
            QuestionVariant::Term(t) => {
                if t.inverted {
                    t.term.as_str()
                } else {
                    t.definition.as_str()
                }
            },
            _ => "",
        }
    }

    /// Whether one more answer with this hint penalty can be recorded.
    pub fn has_room(&self, hint_penalty: u32) -> (room: bool)
        ensures
            room == self@.has_room(hint_penalty),
    {
        self.seen < usize::MAX && self.hints <= u64::MAX - (hint_penalty as u64)
    }

    /// Records an answer given at the moment `now`, and returns whether it was
    /// correct together with the expected answer.
    pub fn answer_at(&mut self, ans: &str, hint_penalty: u32, now: SystemTime) -> (outcome: (
        bool,
        String,
    ))
        requires
            old(self)@.is_term(),
            old(self)@.wf(),
            old(self)@.has_room(hint_penalty),
        ensures
            outcome.0 == old(self)@.accepts(ans@),
            outcome.1@ == old(self)@.expected(),
            final(self)@ == old(self)@.answered(ans@, hint_penalty, now),
            final(self)@.wf(),
    {
        let right_ans = String::from_str(self.peek());
        let correct = check_answer(ans, right_ans.as_str(), &self.comp_level);
        self.seen += 1;
        self.hints += hint_penalty as u64;
        if correct {
            self.correct += 1;
            self.increment_mastery();
            self.last_correct = now;
        } else {
            self.decrement_mastery();
        }
        (correct, right_ans)
    }

    /// Records an answer given now. The clock decides the new time of the
    /// last correct answer; everything else is fixed by the arguments.
    pub fn answer(&mut self, ans: &str, hint_penalty: u32) -> (outcome: (bool, String))
        requires
            old(self)@.is_term(),
            old(self)@.wf(),
            old(self)@.has_room(hint_penalty),
        ensures
            outcome.0 == old(self)@.accepts(ans@),
            outcome.1@ == old(self)@.expected(),
            final(self)@ == old(self)@.answered(ans@, hint_penalty, final(self).last_correct),
            final(self)@.wf(),
    {
        let now = clock_now();
        self.answer_at(ans, hint_penalty, now)
    }

    /// Marks the last answer as correct after all.
    pub fn override_correct(&mut self)
        ensures
            final(self)@ == old(self)@.overridden(),
            old(self)@.wf() ==> final(self)@.wf(),
    {
        if self.correct < self.seen {
            self.correct += 1;
            // Give back the mastery lost from the wrong answer
            self.increment_mastery();
            // Give the new mastery for being correct
            self.increment_mastery();
        } else {
            self.correct = self.seen;
        }
    }

    /// What the question asks, to be changed in place.
    pub fn _get_variant(&mut self) -> (data: &mut QuestionVariant)
        ensures
            *data == old(self).data,
            final(self).data == *final(data),
            final(self).id == old(self).id,
            final(self).comp_level == old(self).comp_level,
            final(self).mastery == old(self).mastery,
            final(self).correct == old(self).correct,
            final(self).seen == old(self).seen,
            final(self).hints == old(self).hints,
            final(self).last_correct == old(self).last_correct,
    {
        &mut self.data
    }

    /// One step up on the mastery scale.
    fn increment_mastery(&mut self)
        ensures
            final(self).mastery == raised(old(self).mastery),
            final(self).id == old(self).id,
            final(self).data == old(self).data,
            final(self).comp_level == old(self).comp_level,
            final(self).correct == old(self).correct,
            final(self).seen == old(self).seen,
            final(self).hints == old(self).hints,
            final(self).last_correct == old(self).last_correct,
    {
        if self.mastery < MAX_MASTERY {
            self.mastery += 1;
        }
    }

    /// One step down on the mastery scale.
    fn decrement_mastery(&mut self)
        ensures
            final(self).mastery == lowered(old(self).mastery),
            final(self).id == old(self).id,
            final(self).data == old(self).data,
            final(self).comp_level == old(self).comp_level,
            final(self).correct == old(self).correct,
            final(self).seen == old(self).seen,
            final(self).hints == old(self).hints,
            final(self).last_correct == old(self).last_correct,
    {
        if self.mastery > 0 {
            self.mastery -= 1;
        }
    }
}

/// The questions `after` are the questions `before` but for number `q`, which
/// took one answer.
pub open spec fn after_answer(
    before: Seq<QuestionView>,
    after: Seq<QuestionView>,
    q: int,
    candidate: Seq<char>,
    penalty: u32,
) -> bool {
    &&& 0 <= q < before.len()
    &&& after.len() == before.len()
    &&& after == before.update(
        q,
        before[q].answered(candidate, penalty, after[q].last_correct),
    )
}

/// The questions `after` are the questions `before` at a later time: there
/// are as many, and no statistic of any has fallen.
pub open spec fn advanced(before: Seq<QuestionView>, after: Seq<QuestionView>) -> bool {
    &&& after.len() == before.len()
    &&& forall|i: int|
        0 <= i < before.len() ==> {
            &&& before[i].correct <= (#[trigger] after[i]).correct
            &&& before[i].seen <= after[i].seen
            &&& before[i].hints <= after[i].hints
        }
}

/// Questions of which one has taken an answer that it had room for have
/// advanced.
pub proof fn lemma_answer_advances(
    before: Seq<QuestionView>,
    after: Seq<QuestionView>,
    q: int,
    candidate: Seq<char>,
    penalty: u32,
)
    requires
        after_answer(before, after, q, candidate, penalty),
        before[q].wf(),
        before[q].has_room(penalty),
    ensures
        advanced(before, after),
{
    assert forall|i: int| 0 <= i < before.len() implies {
        &&& before[i].correct <= (#[trigger] after[i]).correct
        &&& before[i].seen <= after[i].seen
        &&& before[i].hints <= after[i].hints
    } by {
        if i != q {
            assert(after[i] == before[i]);
        }
    }
}

/// Questions of which one has had its last answer marked correct have
/// advanced.
pub proof fn lemma_override_advances(before: Seq<QuestionView>, q: int)
    requires
        0 <= q < before.len(),
        before[q].wf(),
    ensures
        advanced(before, before.update(q, before[q].overridden())),
{
}

/// A handle to a question in a `QuestionStore`: the place it was given when
/// it was inserted, which it keeps for good.
#[derive(Clone, Copy, Debug, PartialEq, Eq, Structural, Hash)]
pub struct QuestionRef {
    pub index: usize,
}

/// The questions of a tree, each owned here and reached through its handle
/// by the sections, the dispatcher and the quiz that is being asked.
#[derive(Clone, Debug)]
pub struct QuestionStore {
    pub questions: Vec<Question>,
}

impl View for QuestionStore {
    type V = Seq<QuestionView>;

    open spec fn view(&self) -> Seq<QuestionView> {
        Seq::new(self.questions.len() as nat, |i: int| self.questions[i]@)
    }
}

impl QuestionStore {
    /// Whether a handle points into this store.
    pub open spec fn holds(&self, r: QuestionRef) -> bool {
        r.index < self.questions.len()
    }

    /// Every question is well formed.
    pub open spec fn wf(&self) -> bool {
        forall|i: int| 0 <= i < self@.len() ==> (#[trigger] self@[i]).wf()
    }

    /// A store that holds no question yet.
    pub fn new() -> (store: Self)
        ensures
            store@ == Seq::<QuestionView>::empty(),
            store.wf(),
    {
        let store = QuestionStore { questions: Vec::new() };
        assert(store@ =~= Seq::<QuestionView>::empty());
        store
    }

    /// The number of questions in the store.
    pub fn len(&self) -> (n: usize)
        ensures
            n == self@.len(),
    {
        self.questions.len()
    }

    /// Whether every question is well formed.
    pub fn well_formed(&self) -> (ok: bool)
        ensures
            ok == self.wf(),
    {
        let mut i: usize = 0;
        while i < self.questions.len()
            invariant
                i <= self.questions.len(),
                forall|k: int| 0 <= k < i ==> (#[trigger] self@[k]).wf(),
            decreases self.questions.len() - i,
        {
            assert(self@[i as int] == self.questions[i as int]@);
            let question = &self.questions[i];
            if question.mastery > MAX_MASTERY || question.correct > question.seen {
                return false;
            }
            i += 1;
        }
        true
    }

    /// Takes a question in and hands back the handle under which it stays.
    pub fn insert(&mut self, question: Question) -> (r: QuestionRef)
        ensures
            final(self)@ == old(self)@.push(question@),
            r.index == old(self)@.len(),
            final(self).holds(r),
    {
        let r = QuestionRef { index: self.questions.len() };
        self.questions.push(question);
        assert(self@ =~= old(self)@.push(question@));
        r
    }

    /// The question behind a handle, if the handle points into this store.
    pub fn get(&self, r: QuestionRef) -> (q: Option<&Question>)
        ensures
            self.holds(r) ==> q == Some(&self.questions[r.index as int]),
            !self.holds(r) ==> q is None,
    {
        if r.index < self.questions.len() {
            Some(&self.questions[r.index])
        } else {
            None
        }
    }

    /// Records an answer to the question behind a handle.
    pub fn answer(&mut self, r: QuestionRef, ans: &str, hint_penalty: u32) -> (outcome: (
        bool,
        String,
    ))
        requires
            old(self).holds(r),
            old(self).wf(),
            old(self)@[r.index as int].is_term(),
            old(self)@[r.index as int].has_room(hint_penalty),
        ensures
            outcome.0 == old(self)@[r.index as int].accepts(ans@),
            outcome.1@ == old(self)@[r.index as int].expected(),
            after_answer(old(self)@, final(self)@, r.index as int, ans@, hint_penalty),
            final(self).wf(),
    {
        let question = self.get_mut(r);
        let outcome = question.answer(ans, hint_penalty);
        assert(self@ =~= old(self)@.update(
            r.index as int,
            old(self)@[r.index as int].answered(ans@, hint_penalty, self@[r.index as int].last_correct),
        ));
        outcome
    }

    /// Marks the last answer to the question behind a handle as correct.
    pub fn override_correct(&mut self, r: QuestionRef)
        requires
            old(self).holds(r),
        ensures
            final(self)@ == old(self)@.update(r.index as int, old(self)@[r.index as int].overridden()),
            old(self).wf() ==> final(self).wf(),
    {
        let question = self.get_mut(r);
        question.override_correct();
        assert(self@ =~= old(self)@.update(r.index as int, old(self)@[r.index as int].overridden()));
    }

    /// The question behind a handle, to be changed in place.
    pub fn get_mut(&mut self, r: QuestionRef) -> (q: &mut Question)
        requires
            old(self).holds(r),
        ensures
            *q == old(self).questions[r.index as int],
            final(self).questions@ == old(self).questions@.update(r.index as int, *final(q)),
    {
        &mut self.questions[r.index]
    }
}

/// A named node of the notes: its own questions, and the sections below it.
#[derive(Debug)]
pub struct Section {
    pub name: String,
    pub questions: Vec<QuestionRef>,
    pub children: Vec<Section>,
}

impl Section {
    /// Every handle in the tree points into a store of `len` questions.
    pub open spec fn fits(&self, len: nat) -> bool
        decreases self,
    {
        &&& forall|i: int| 0 <= i < self.questions.len() ==> (#[trigger] self.questions[i]).index < len
        &&& forall|i: int|
            0 <= i < self.children.len() ==> (#[trigger] self.children[i]).fits(len)
    }

    /// The place of the first child that bears a name, or the number of
    /// children where none does.
    pub open spec fn child_index(&self, name: Seq<char>) -> int {
        Self::first_named(self.children@, name)
    }

    /// The place of the first section of a list that bears a name, or the
    /// length of the list where none does.
    pub open spec fn first_named(sections: Seq<Section>, name: Seq<char>) -> int
        decreases sections.len(),
    {
        if sections.len() == 0 {
            0
        } else if sections.first().name@ == name {
            0
        } else {
            1 + Self::first_named(sections.drop_first(), name)
        }
    }

    /// The section reached from here by a path of names, each step taking
    /// the first child of that name; `None` where a step finds no such child.
    pub open spec fn descend(&self, path: Seq<Seq<char>>) -> Option<Section>
        decreases path.len(),
    {
        if path.len() == 0 {
            Some(*self)
        } else {
            let i = self.child_index(path.first());
            if i < self.children.len() {
                self.children[i].descend(path.drop_first())
            } else {
                None
            }
        }
    }

    /// The questions of the first `k` children and of all below them, depth
    /// first.
    pub open spec fn gathered_upto(&self, k: nat) -> Seq<QuestionRef>
        decreases self, k,
    {
        if k == 0 || k > self.children.len() {
            Seq::empty()
        } else {
            self.gathered_upto((k - 1) as nat) + self.children[k - 1].gathered(true)
        }
    }

    /// This section's own questions, followed, if `recursive`, by those of
    /// all sections below it, depth first.
    pub open spec fn gathered(&self, recursive: bool) -> Seq<QuestionRef>
        decreases self, self.children.len() + 1,
    {
        if recursive {
            self.questions@ + self.gathered_upto(self.children.len() as nat)
        } else {
            self.questions@
        }
    }

    /// For the questions of the first `k` children and of all below them,
    /// in the order of `gathered_upto`, the names that lead to each from the
    /// top, `path` being the names down to this section.
    pub open spec fn trails_upto(&self, path: Seq<Seq<char>>, k: nat) -> Seq<Seq<Seq<char>>>
        decreases self, k,
    {
        if k == 0 || k > self.children.len() {
            Seq::empty()
        } else {
            self.trails_upto(path, (k - 1) as nat) + self.children[k - 1].trails(path, true)
        }
    }

    /// For each question of `gathered`, in the same order, the names that
    /// lead to it: those `above` this section, this section's own, and those
    /// of the sections on the way down to the one that owns the question.
    pub open spec fn trails(&self, above: Seq<Seq<char>>, recursive: bool) -> Seq<Seq<Seq<char>>>
        decreases self, self.children.len() + 1,
    {
        let path = above.push(self.name@);
        let own = Seq::new(self.questions.len() as nat, |i: int| path);
        if recursive {
            own + self.trails_upto(path, self.children.len() as nat)
        } else {
            own
        }
    }

    /// The first section of a list that bears a name is within the list or
    /// at its end, no section before it bears the name, and it does.
    pub proof fn lemma_first_named(sections: Seq<Section>, name: Seq<char>)
        ensures
            0 <= Self::first_named(sections, name) <= sections.len(),
            forall|j: int|
                0 <= j < Self::first_named(sections, name) ==> (#[trigger] sections[j]).name@
                    != name,
            Self::first_named(sections, name) < sections.len() ==> sections[Self::first_named(
                sections,
                name,
            )].name@ == name,
        decreases sections.len(),
    {
        if sections.len() > 0 && sections.first().name@ != name {
            let rest = sections.drop_first();
            Self::lemma_first_named(rest, name);
            assert forall|j: int| 0 <= j < Self::first_named(sections, name) implies (
            #[trigger] sections[j]).name@ != name by {
                if j > 0 {
                    assert(sections[j] == rest[j - 1]);
                }
            }
            if Self::first_named(sections, name) < sections.len() {
                assert(sections[Self::first_named(sections, name)] == rest[Self::first_named(
                    rest,
                    name,
                )]);
            }
        }
    }

    /// A section that is reached in a tree that fits a store fits it too.
    pub proof fn lemma_descend_fits(&self, path: Seq<Seq<char>>, len: nat)
        requires
            self.fits(len),
            self.descend(path) is Some,
        ensures
            self.descend(path)->0.fits(len),
        decreases path.len(),
    {
        if path.len() > 0 {
            let i = self.child_index(path.first());
            Self::lemma_first_named(self.children@, path.first());
            self.children[i].lemma_descend_fits(path.drop_first(), len);
        }
    }

    /// One step further down: where a path leads to a section, the path with
    /// one more name leads to that section's first child of the name.
    pub proof fn lemma_descend_push(&self, path: Seq<Seq<char>>, name: Seq<char>)
        requires
            self.descend(path) is Some,
        ensures
            self.descend(path.push(name)) == self.descend(path)->0.descend(seq![name]),
        decreases path.len(),
    {
        if path.len() == 0 {
            assert(path.push(name) =~= seq![name]);
        } else {
            let i = self.child_index(path.first());
            Self::lemma_first_named(self.children@, path.first());
            assert(path.push(name).first() == path.first());
            assert(path.push(name).drop_first() =~= path.drop_first().push(name));
            self.children[i].lemma_descend_push(path.drop_first(), name);
        }
    }

    /// One step back up: where a path leads to a section, the path without
    /// its last name leads to one too.
    pub proof fn lemma_descend_pop(&self, path: Seq<Seq<char>>)
        requires
            self.descend(path) is Some,
            path.len() > 0,
        ensures
            self.descend(path.drop_last()) is Some,
        decreases path.len(),
    {
        if path.len() > 1 {
            let i = self.child_index(path.first());
            Self::lemma_first_named(self.children@, path.first());
            assert(path.drop_last().first() == path.first());
            assert(path.drop_last().drop_first() =~= path.drop_first().drop_last());
            self.children[i].lemma_descend_pop(path.drop_first());
        }
    }

    /// In a tree that fits a store, every question that is gathered is in
    /// the store.
    pub proof fn lemma_gathered_fit(&self, len: nat, recursive: bool)
        requires
            self.fits(len),
        ensures
            forall|i: int|
                0 <= i < self.gathered(recursive).len() ==> (#[trigger] self.gathered(
                    recursive,
                )[i]).index < len,
        decreases self, self.children.len() + 1,
    {
        let all = self.gathered(recursive);
        if recursive {
            self.lemma_gathered_upto_fit(len, self.children.len() as nat);
        }
        assert forall|i: int| 0 <= i < all.len() implies (#[trigger] all[i]).index < len by {
            if i < self.questions.len() {
                assert(all[i] == self.questions[i]);
            } else {
                let below = self.gathered_upto(self.children.len() as nat);
                assert(all[i] == below[i - self.questions.len()]);
            }
        }
    }

    /// In a tree that fits a store, every question that is gathered from
    /// the children is in the store.
    pub proof fn lemma_gathered_upto_fit(&self, len: nat, k: nat)
        requires
            self.fits(len),
            k <= self.children.len(),
        ensures
            forall|i: int|
                0 <= i < self.gathered_upto(k).len() ==> (#[trigger] self.gathered_upto(
                    k,
                )[i]).index < len,
        decreases self, k,
    {
        if k > 0 {
            self.lemma_gathered_upto_fit(len, (k - 1) as nat);
            self.children[k - 1].lemma_gathered_fit(len, true);
            let all = self.gathered_upto(k);
            let before = self.gathered_upto((k - 1) as nat);
            let last = self.children[k - 1].gathered(true);
            assert forall|i: int| 0 <= i < all.len() implies (#[trigger] all[i]).index < len by {
                if i < before.len() {
                    assert(all[i] == before[i]);
                } else {
                    assert(all[i] == last[i - before.len()]);
                }
            }
        }
    }

    /// A section with its name, the sections below it, and the handles of
    /// its own questions.
    pub fn new(name: String, children: Vec<Section>, questions: Vec<QuestionRef>) -> (section:
        Section)
        ensures
            section.name == name,
            section.children == children,
            section.questions == questions,
    {
        Section { name, children, questions }
    }

    /// Whether every handle in the tree points into a store of `len`
    /// questions.
    pub fn fits_in(&self, len: usize) -> (ok: bool)
        ensures
            ok == self.fits(len as nat),
        decreases self,
    {
        let mut i: usize = 0;
        while i < self.questions.len()
            invariant
                i <= self.questions.len(),
                forall|k: int| 0 <= k < i ==> (#[trigger] self.questions[k]).index < len,
            decreases self.questions.len() - i,
        {
            if self.questions[i].index >= len {
                return false;
            }
            i += 1;
        }
        let mut k: usize = 0;
        while k < self.children.len()
            invariant
                k <= self.children.len(),
                forall|j: int|
                    0 <= j < self.questions.len() ==> (#[trigger] self.questions[j]).index < len,
                forall|j: int| 0 <= j < k ==> (#[trigger] self.children[j]).fits(len as nat),
            decreases self.children.len() - k,
        {
            if !self.children[k].fits_in(len) {
                return false;
            }
            k += 1;
        }
        true
    }

    /// Whether there are sections below this one.
    pub fn is_parent(&self) -> (parent: bool)
        ensures
            parent == (self.children.len() > 0),
    {
        !self.children.is_empty()
    }

    /// The place of the first child that bears a name.
    pub fn find_child(&self, name: &str) -> (found: Option<usize>)
        ensures
            match found {
                Some(i) => i == self.child_index(name@) && i < self.children.len(),
                None => self.child_index(name@) >= self.children.len(),
            },
    {
        let mut i: usize = 0;
        assert(self.children@.skip(0) =~= self.children@);
        while i < self.children.len()
            invariant
                i <= self.children.len(),
                self.child_index(name@) == i + Self::first_named(
                    self.children@.skip(i as int),
                    name@,
                ),
            decreases self.children.len() - i,
        {
            assert(self.children@.skip(i as int).first() == self.children[i as int]);
            if str_eq(self.children[i].name.as_str(), name) {
                return Some(i);
            }
            assert(self.children@.skip(i as int).drop_first() =~= self.children@.skip(i + 1));
            i += 1;
        }
        assert(self.children@.skip(i as int).len() == 0);
        None
    }

    /// Follows a path of names down the tree.
    pub fn child_at_path(&self, path: &Vec<String>) -> (found: Option<&Section>)
        ensures
            match found {
                Some(section) => self.descend(path.deep_view()) == Some(*section),
                None => self.descend(path.deep_view()) is None,
            },
    {
        let mut current = self;
        let mut i: usize = 0;
        assert(path.deep_view().skip(0) =~= path.deep_view());
        while i < path.len()
            invariant
                i <= path.len(),
                self.descend(path.deep_view()) == current.descend(path.deep_view().skip(i as int)),
            decreases path.len() - i,
        {
            let ghost rest = path.deep_view().skip(i as int);
            assert(rest.first() == path[i as int]@);
            assert(rest.drop_first() =~= path.deep_view().skip(i + 1));
            match current.find_child(path[i].as_str()) {
                Some(j) => {
                    current = &current.children[j];
                },
                None => {
                    return None;
                },
            }
            i += 1;
        }
        assert(path.deep_view().skip(i as int).len() == 0);
        Some(current)
    }

    /// This section's own questions, followed, if `recursive`, by those of
    /// all sections below it, depth first.
    pub fn get_questions(&self, recursive: bool) -> (found: Vec<QuestionRef>)
        ensures
            found@ == self.gathered(recursive),
        decreases self,
    {
        let mut found: Vec<QuestionRef> = Vec::new();
        let mut i: usize = 0;
        while i < self.questions.len()
            invariant
                i <= self.questions.len(),
                found@ == self.questions@.take(i as int),
            decreases self.questions.len() - i,
        {
            found.push(self.questions[i]);
            assert(found@ =~= self.questions@.take(i + 1));
            i += 1;
        }
        assert(self.questions@.take(i as int) =~= self.questions@);
        if recursive {
            let mut k: usize = 0;
            while k < self.children.len()
                invariant
                    k <= self.children.len(),
                    found@ == self.questions@ + self.gathered_upto(k as nat),
                decreases self.children.len() - k,
            {
                let mut below = self.children[k].get_questions(true);
                found.append(&mut below);
                k += 1;
                assert(found@ =~= self.questions@ + self.gathered_upto(k as nat));
            }
        }
        found
    }
}

} // verus!

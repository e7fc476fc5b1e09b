use crate::engine::data::{
    after_answer, Question, QuestionRef, QuestionStore, QuestionVariant, QuestionView, HINT_SCALE,
};
use crate::engine::random::{
    choose_one, choose_some, lemma_rearrangement_keeps, lemma_sample_texts, shuffle,
};
use crate::engine::text::{clone_texts, contains_text, parse_number, parsed_number, str_eq};
use rand::rngs::StdRng;
use vstd::prelude::*;

verus! {

/// Where a question sits and what it sits among: the names from the section
/// that is being studied down to the section that owns the question, and the
/// questions that the same kind of quiz could ask as well.
#[derive(Debug)]
pub struct QuestionCtx {
    pub path: Vec<String>,
    pub siblings: Vec<QuestionRef>,
}

/// A question's context as mathematical values.
pub struct CtxView {
    pub path: Seq<Seq<char>>,
    pub siblings: Seq<QuestionRef>,
}

impl View for QuestionCtx {
    type V = CtxView;

    open spec fn view(&self) -> CtxView {
        CtxView { path: self.path.deep_view(), siblings: self.siblings@ }
    }
}

impl Default for QuestionCtx {
    fn default() -> (ctx: Self)
        ensures
            ctx@.path.len() == 0,
            ctx@.siblings.len() == 0,
    {
        QuestionCtx { path: Vec::new(), siblings: Vec::new() }
    }
}

impl QuestionCtx {
    /// A copy of this context.
    pub fn duplicate(&self) -> (copy: Self)
        ensures
            copy@ == self@,
    {
        let path = clone_texts(&self.path);
        let mut siblings: Vec<QuestionRef> = Vec::new();
        let mut i: usize = 0;
        while i < self.siblings.len()
            invariant
                i <= self.siblings.len(),
                siblings@ == self.siblings@.take(i as int),
            decreases self.siblings.len() - i,
        {
            siblings.push(self.siblings[i]);
            assert(siblings@ =~= self.siblings@.take(i + 1));
            i += 1;
        }
        assert(self.siblings@.take(i as int) =~= self.siblings@);
        QuestionCtx { path, siblings }
    }
}

/// All siblings of a context are in the store and can be asked by a quiz
/// that accepts what `applies` accepts.
pub open spec fn siblings_fit(
    siblings: Seq<QuestionRef>,
    store: Seq<QuestionView>,
    applies: spec_fn(QuestionView) -> bool,
) -> bool {
    forall|i: int|
        0 <= i < siblings.len() ==> (#[trigger] siblings[i]).index < store.len() && applies(
            store[siblings[i].index as int],
        )
}

/// The outcome of an answer that a quiz passed on to its question: some
/// candidate was judged, at a hint penalty of at most one whole answer, and
/// the store holds the question as that answer left it.
pub open spec fn took_answer(
    before: Seq<QuestionView>,
    after: Seq<QuestionView>,
    q: int,
    correct: bool,
    expected: Seq<char>,
) -> bool {
    exists|candidate: Seq<char>, penalty: u32|
        {
            &&& penalty <= HINT_SCALE
            &&& #[trigger] after_answer(before, after, q, candidate, penalty)
            &&& correct == before[q].accepts(candidate)
            &&& expected == before[q].expected()
        }
}

/// What every kind of quiz can do: say whether it can ask a question, take
/// a context and a question, show the question and its choices, give a hint,
/// take an answer, and take the user's word that the answer was right.
pub trait Quiz: Sized {
    /// The quiz's own settings are usable.
    spec fn wf(&self) -> bool;

    /// Whether this kind of quiz can ask a question.
    spec fn applies(&self, q: QuestionView) -> bool;

    /// The context that was set last.
    spec fn context(&self) -> CtxView;

    /// The question that was set last.
    spec fn question(&self) -> Option<QuestionRef>;

    /// The choices on offer.
    spec fn choices(&self) -> Seq<Seq<char>>;

    /// The quiz is set up to ask its question out of these questions.
    spec fn ready(&self, store: Seq<QuestionView>) -> bool;

    /// A quiz that is set up has usable settings and a question that is in
    /// the store and that it can ask.
    proof fn lemma_ready(&self, store: Seq<QuestionView>)
        requires
            self.ready(store),
        ensures
            self.wf(),
            self.question() is Some,
            self.question()->0.index < store.len(),
            self.applies(store[self.question()->0.index as int]),
    ;

    /// Sets the question to be asked.
    fn set_question(&mut self, q: QuestionRef, store: &QuestionStore, rng: &mut StdRng)
        requires
            old(self).wf(),
            store.holds(q),
            old(self).applies(store@[q.index as int]),
            siblings_fit(old(self).context().siblings, store@, |v: QuestionView| old(self).applies(v)),
        ensures
            final(self).question() == Some(q),
            final(self).context() == old(self).context(),
            forall|v: QuestionView| final(self).applies(v) == old(self).applies(v),
            final(self).ready(store@),
    ;

    /// Sets the context that the question belongs in.
    fn set_context(&mut self, ctx: &QuestionCtx)
        ensures
            final(self).context() == ctx@,
            final(self).question() == old(self).question(),
            final(self).choices() == old(self).choices(),
            final(self).wf() == old(self).wf(),
            forall|v: QuestionView| final(self).applies(v) == old(self).applies(v),
    ;

    /// The context that the question belongs in.
    fn get_context(&self) -> (ctx: &QuestionCtx)
        ensures
            ctx@ == self.context(),
    ;

    /// The text to show for the question, which a quiz may dress up.
    fn ask(&self, store: &QuestionStore) -> (text: String)
        requires
            self.question() is Some ==> self.ready(store@),
        ensures
            self.question() is None ==> text@.len() == 0,
    ;

    /// The possible answers to show, none where the answer is free text.
    fn get_choices(&self) -> (choices: &Vec<String>)
        ensures
            choices.deep_view() == self.choices(),
    ;

    /// Makes the question easier: a quiz with choices may take wrong ones
    /// away, never the right one.
    fn get_hint(&mut self, store: &QuestionStore, rng: &mut StdRng)
        requires
            old(self).question() is Some ==> old(self).ready(store@),
        ensures
            final(self).question() == old(self).question(),
            final(self).context() == old(self).context(),
            final(self).wf() == old(self).wf(),
            forall|v: QuestionView| final(self).applies(v) == old(self).applies(v),
            old(self).question() is Some ==> final(self).ready(store@),
            final(self).choices().len() <= old(self).choices().len(),
            forall|k: int|
                0 <= k < final(self).choices().len() ==> old(self).choices().contains(
                    #[trigger] final(self).choices()[k],
                ),
    ;

    /// Takes what the user typed. Input that is no answer changes nothing
    /// and gives `None`; an answer is passed on to the question, and comes
    /// back as whether it was correct, with the expected answer.
    fn answer(&mut self, ans: &str, store: &mut QuestionStore) -> (outcome: Option<(bool, String)>)
        requires
            old(self).question() is Some ==> old(self).ready(old(store)@),
            old(store).wf(),
            old(self).question() matches Some(q) ==> old(store)@[q.index as int].has_room(HINT_SCALE),
        ensures
            final(self).question() == old(self).question(),
            final(self).context() == old(self).context(),
            final(self).choices() == old(self).choices(),
            final(self).wf() == old(self).wf(),
            forall|v: QuestionView| final(self).applies(v) == old(self).applies(v),
            old(self).question() is Some ==> final(self).ready(final(store)@),
            final(store).wf(),
            outcome is None ==> final(store)@ == old(store)@,
            outcome matches Some(o) ==> old(self).question() is Some && took_answer(
                old(store)@,
                final(store)@,
                old(self).question()->0.index as int,
                o.0,
                o.1@,
            ),
    ;

    /// Marks the last answer as correct after all.
    fn i_was_right(&mut self, store: &mut QuestionStore)
        requires
            old(self).question() is Some ==> old(self).ready(old(store)@),
        ensures
            final(self).question() == old(self).question(),
            final(self).context() == old(self).context(),
            final(self).choices() == old(self).choices(),
            final(self).wf() == old(self).wf(),
            forall|v: QuestionView| final(self).applies(v) == old(self).applies(v),
            old(self).question() is Some ==> final(self).ready(final(store)@),
            old(store).wf() ==> final(store).wf(),
            match old(self).question() {
                Some(q) => final(store)@ == old(store)@.update(
                    q.index as int,
                    old(store)@[q.index as int].overridden(),
                ),
                None => final(store)@ == old(store)@,
            },
    ;

    /// Whether this kind of quiz can ask a question.
    fn is_applicable(&self, q: &Question) -> (applicable: bool)
        ensures
            applicable == self.applies(q@),
    ;
}

/// How a multiple-choice quiz is set up.
#[derive(Clone, Copy, Debug)]
pub struct MCSettings {
    /// The number of answer choices for each question
    pub choices: usize,
}

impl Default for MCSettings {
    fn default() -> (settings: Self)
        ensures
            settings.choices == 4,
    {
        MCSettings { choices: 4 }
    }
}

/// A quiz that offers the right answer among the answers of other questions.
#[derive(Debug)]
pub struct MultipleChoice {
    pub settings: MCSettings,
    pub question: Option<QuestionRef>,
    pub context: QuestionCtx,
    pub choices: Vec<String>,
    /// The number of choices that the question started with.
    pub offered: usize,
}

/// `after` is the quiz `before` after a hint on a question with the answer
/// `answer`: where more than two choices were left, one that is not the
/// answer is gone, and the others stand as they stood; where no more than
/// two were left, they are all still there. Nothing else has changed.
pub open spec fn hinted(before: MultipleChoice, after: MultipleChoice, answer: Seq<char>) -> bool {
    &&& after.settings == before.settings
    &&& after.offered == before.offered
    &&& after.question == before.question
    &&& after.context == before.context
    &&& if before.choices.len() > 2 {
        exists|i: int|
            {
                &&& 0 <= i < before.choices.len()
                &&& before.choices[i]@ != answer
                &&& #[trigger] before.choices.deep_view().remove(i) == after.choices.deep_view()
            }
    } else {
        after.choices.deep_view() == before.choices.deep_view()
    }
}

/// The choices hold the answer, and no text twice.
pub open spec fn well_chosen(texts: Seq<Seq<char>>, answer: Seq<char>) -> bool {
    texts.no_duplicates() && texts.contains(answer)
}

/// The answers that the first `k` siblings expect, each once, in the order
/// in which they first occur, without the answer `answer`.
pub open spec fn bank_upto(
    store: Seq<QuestionView>,
    siblings: Seq<QuestionRef>,
    answer: Seq<char>,
    k: nat,
) -> Seq<Seq<char>>
    decreases k,
{
    if k == 0 || k > siblings.len() {
        Seq::empty()
    } else {
        let before = bank_upto(store, siblings, answer, (k - 1) as nat);
        let text = store[siblings[k - 1].index as int].expected();
        if text == answer || before.contains(text) {
            before
        } else {
            before.push(text)
        }
    }
}

/// The wrong answers that a question with the answer `answer` can be set
/// among: what its siblings expect, each text once, without `answer`.
pub open spec fn answer_bank(
    store: Seq<QuestionView>,
    siblings: Seq<QuestionRef>,
    answer: Seq<char>,
) -> Seq<Seq<char>> {
    bank_upto(store, siblings, answer, siblings.len())
}

/// No text is in the bank twice, the answer is not in it, and each of its
/// texts is what one of the first `k` siblings expects.
pub proof fn lemma_bank_upto(
    store: Seq<QuestionView>,
    siblings: Seq<QuestionRef>,
    answer: Seq<char>,
    k: nat,
)
    requires
        k <= siblings.len(),
    ensures
        bank_upto(store, siblings, answer, k).no_duplicates(),
        !bank_upto(store, siblings, answer, k).contains(answer),
        bank_upto(store, siblings, answer, k).len() <= k,
        forall|t: Seq<char>|
            bank_upto(store, siblings, answer, k).contains(t) ==> exists|i: int|
                0 <= i < k && #[trigger] store[siblings[i].index as int].expected() == t,
        forall|i: int|
            0 <= i < k && store[siblings[i].index as int].expected() != answer ==> bank_upto(
                store,
                siblings,
                answer,
                k,
            ).contains(#[trigger] store[siblings[i].index as int].expected()),
    decreases k,
{
    if k > 0 {
        lemma_bank_upto(store, siblings, answer, (k - 1) as nat);
        let before = bank_upto(store, siblings, answer, (k - 1) as nat);
        let now = bank_upto(store, siblings, answer, k);
        let text = store[siblings[k - 1].index as int].expected();
        if text == answer || before.contains(text) {
            assert(now == before);
        } else {
            assert(now == before.push(text));
            assert(now[now.len() - 1] == text);
            assert forall|t: Seq<char>| now.contains(t) implies exists|i: int|
                0 <= i < k && #[trigger] store[siblings[i].index as int].expected() == t by {
                let j = choose|j: int| 0 <= j < now.len() && now[j] == t;
                if j < before.len() {
                    assert(before[j] == t);
                    assert(before.contains(t));
                } else {
                    assert(store[siblings[k - 1].index as int].expected() == t);
                }
            }
            assert forall|i: int|
                0 <= i < k && store[siblings[i].index as int].expected()
                    != answer implies now.contains(
                #[trigger] store[siblings[i].index as int].expected(),
            ) by {
                let t = store[siblings[i].index as int].expected();
                if i < k - 1 {
                    assert(before.contains(t));
                    let j = choose|j: int| 0 <= j < before.len() && before[j] == t;
                    assert(now[j] == t);
                } else {
                    assert(now[now.len() - 1] == t);
                }
            }
        }
    }
}

/// Among choices that are well chosen, exactly one is the answer.
pub proof fn lemma_one_answer(texts: Seq<Seq<char>>, answer: Seq<char>)
    requires
        well_chosen(texts, answer),
    ensures
        exists|i: int|
            0 <= i < texts.len() && #[trigger] texts[i] == answer && forall|j: int|
                0 <= j < texts.len() && j != i ==> texts[j] != answer,
{
    let i = choose|i: int| 0 <= i < texts.len() && texts[i] == answer;
    assert(texts[i] == answer);
}

/// Where the first `k` siblings all expect different answers, each of
/// their answers but the answer itself is in the bank.
pub proof fn lemma_bank_len(
    store: Seq<QuestionView>,
    siblings: Seq<QuestionRef>,
    answer: Seq<char>,
    k: nat,
)
    requires
        k <= siblings.len(),
        forall|i: int, j: int|
            0 <= i < j < siblings.len() ==> store[(#[trigger] siblings[i]).index as int].expected()
                != store[(#[trigger] siblings[j]).index as int].expected(),
    ensures
        bank_upto(store, siblings, answer, k).len() + 1 >= k,
        (forall|i: int| 0 <= i < k ==> store[(#[trigger] siblings[i]).index as int].expected() != answer)
            ==> bank_upto(store, siblings, answer, k).len() == k,
    decreases k,
{
    if k > 0 {
        lemma_bank_len(store, siblings, answer, (k - 1) as nat);
        lemma_bank_upto(store, siblings, answer, (k - 1) as nat);
        let before = bank_upto(store, siblings, answer, (k - 1) as nat);
        let text = store[siblings[k - 1].index as int].expected();
        if before.contains(text) {
            let i = choose|i: int|
                0 <= i < k - 1 && #[trigger] store[siblings[i].index as int].expected() == text;
            assert(store[siblings[i].index as int].expected() != store[siblings[k
                - 1].index as int].expected());
        }
        if text == answer {
            assert forall|i: int| 0 <= i < k - 1 implies store[(
            #[trigger] siblings[i]).index as int].expected() != answer by {
                assert(store[siblings[i].index as int].expected() != store[siblings[k
                    - 1].index as int].expected());
            }
        }
    }
}

/// A question that has as many siblings as there are to be choices, all
/// expecting different answers, gets exactly that many choices.
pub proof fn lemma_full_choices(
    store: Seq<QuestionView>,
    siblings: Seq<QuestionRef>,
    answer: Seq<char>,
    choices: usize,
)
    requires
        choices >= 1,
        siblings.len() >= choices,
        forall|i: int, j: int|
            0 <= i < j < siblings.len() ==> store[(#[trigger] siblings[i]).index as int].expected()
                != store[(#[trigger] siblings[j]).index as int].expected(),
    ensures
        1 + vstd::math::min(choices - 1, answer_bank(store, siblings, answer).len() as int)
            == choices,
{
    lemma_bank_len(store, siblings, answer, siblings.len());
}

/// A hint never takes the answer away, and takes exactly one choice away
/// as long as more than two are left.
pub proof fn lemma_hint_shrinks(before: MultipleChoice, after: MultipleChoice, answer: Seq<char>)
    requires
        hinted(before, after, answer),
        well_chosen(before.choices.deep_view(), answer),
    ensures
        well_chosen(after.choices.deep_view(), answer),
        before.choices.len() > 2 ==> after.choices.len() == before.choices.len() - 1,
        before.choices.len() <= 2 ==> after.choices.len() == before.choices.len(),
        before.choices.len() >= 2 ==> after.choices.len() >= 2,
        forall|k: int|
            0 <= k < after.choices.len() ==> before.choices.deep_view().contains(
                #[trigger] after.choices.deep_view()[k],
            ),
{
    let texts = before.choices.deep_view();
    let left = after.choices.deep_view();
    if before.choices.len() > 2 {
        let place = choose|i: int|
            {
                &&& 0 <= i < before.choices.len()
                &&& before.choices[i]@ != answer
                &&& #[trigger] before.choices.deep_view().remove(i) == after.choices.deep_view()
            };
        assert(texts[place] == before.choices[place]@);
        let a = choose|a: int| 0 <= a < texts.len() && texts[a] == answer;
        if a < place {
            assert(left[a] == answer);
        } else {
            assert(left[a - 1] == answer);
        }
        assert forall|i: int, j: int|
            0 <= i < left.len() && 0 <= j < left.len() && i != j implies left[i] != left[j] by {
            let i0 = if i < place { i } else { i + 1 };
            let j0 = if j < place { j } else { j + 1 };
            assert(left[i] == texts[i0]);
            assert(left[j] == texts[j0]);
        }
        assert forall|k: int| 0 <= k < left.len() implies texts.contains(#[trigger] left[k]) by {
            let k0 = if k < place { k } else { k + 1 };
            assert(texts[k0] == left[k]);
        }
    } else {
        assert forall|k: int| 0 <= k < left.len() implies texts.contains(#[trigger] left[k]) by {
            assert(texts[k] == left[k]);
        }
    }
}

/// The share of an answer that the hints have cost, in millionths: one
/// minus the part of the choices that is still on offer, rounded down.
pub open spec fn hint_cost(current: nat, offered: nat) -> u32 {
    if current < offered {
        #[verifier::truncate]
        ((((offered - current) * HINT_SCALE) / (offered as int)) as u32)
    } else {
        0
    }
}

/// Hints never cost more than the answer is worth.
pub proof fn lemma_hint_cost(current: nat, offered: nat)
    ensures
        hint_cost(current, offered) <= HINT_SCALE,
{
    if current < offered {
        let removed = offered - current;
        assert(removed * HINT_SCALE <= offered * HINT_SCALE) by (nonlinear_arith)
            requires
                removed <= offered,
        ;
        assert((removed * HINT_SCALE) / (offered as int) <= HINT_SCALE) by (nonlinear_arith)
            requires
                removed * HINT_SCALE <= offered * HINT_SCALE,
                offered > 0,
                removed >= 0,
        ;
        assert((removed * HINT_SCALE) / (offered as int) >= 0) by (nonlinear_arith)
            requires
                offered > 0,
                removed >= 0,
        ;
    }
}

/// The share of an answer that the hints have cost, in millionths.
pub fn hint_penalty(current: usize, offered: usize) -> (penalty: u32)
    ensures
        penalty == hint_cost(current as nat, offered as nat),
        penalty <= HINT_SCALE,
{
    if current < offered {
        let removed: u128 = (offered - current) as u128;
        let whole: u128 = offered as u128;
        assert(removed * 1_000_000 <= whole * 1_000_000) by (nonlinear_arith)
            requires
                removed <= whole,
        ;
        assert(whole * 1_000_000 <= 0xffff_ffff_ffff_ffff * 1_000_000) by (nonlinear_arith)
            requires
                whole <= 0xffff_ffff_ffff_ffff,
        ;
        let scaled: u128 = removed * 1_000_000u128;
        let cost: u128 = scaled / whole;
        assert(cost <= 1_000_000) by (nonlinear_arith)
            requires
                cost == scaled / whole,
                scaled <= whole * 1_000_000,
                whole > 0,
        ;
        cost as u32
    } else {
        0
    }
}

impl Default for MultipleChoice {
    fn default() -> (quiz: Self)
        ensures
            quiz.settings.choices == 4,
            quiz.question is None,
            quiz.context@.path.len() == 0,
            quiz.context@.siblings.len() == 0,
            quiz.choices@.len() == 0,
            quiz.wf(),
    {
        MultipleChoice {
            settings: MCSettings::default(),
            question: None,
            context: QuestionCtx::default(),
            choices: Vec::new(),
            offered: 0,
        }
    }
}

impl MultipleChoice {
    /// A quiz with the given settings, and no question yet.
    pub fn _new(settings: MCSettings) -> (quiz: Self)
        ensures
            quiz.settings == settings,
            quiz.question is None,
            quiz.context@.path.len() == 0,
            quiz.context@.siblings.len() == 0,
            quiz.choices@.len() == 0,
    {
        MultipleChoice {
            settings,
            question: None,
            context: QuestionCtx::default(),
            choices: Vec::new(),
            offered: 0,
        }
    }

    /// Sets a question with the choices to offer for it.
    pub fn offer(&mut self, q: QuestionRef, choices: Vec<String>)
        ensures
            final(self).question == Some(q),
            final(self).choices == choices,
            final(self).offered == choices.len(),
            final(self).settings == old(self).settings,
            final(self).context == old(self).context,
    {
        self.offered = choices.len();
        self.choices = choices;
        self.question = Some(q);
    }

    /// The wrong answers that the question can be set among.
    fn build_bank(&self, store: &QuestionStore, answer: &str) -> (bank: Vec<String>)
        requires
            siblings_fit(self.context@.siblings, store@, |v: QuestionView| v.is_term()),
        ensures
            bank.deep_view() == answer_bank(store@, self.context@.siblings, answer@),
    {
        let mut bank: Vec<String> = Vec::new();
        let mut i: usize = 0;
        assert(bank.deep_view() =~= Seq::<Seq<char>>::empty());
        while i < self.context.siblings.len()
            invariant
                i <= self.context.siblings.len(),
                siblings_fit(self.context@.siblings, store@, |v: QuestionView| v.is_term()),
                bank.deep_view() == bank_upto(store@, self.context@.siblings, answer@, i as nat),
            decreases self.context.siblings.len() - i,
        {
            let r = self.context.siblings[i];
            assert(r == self.context@.siblings[i as int]);
            assert(store@[r.index as int] == store.questions[r.index as int]@);
            let text = store.questions[r.index].peek();
            let ghost before = bank.deep_view();
            if !str_eq(text, answer) && !contains_text(&bank, text) {
                bank.push(String::from_str(text));
                assert(bank.deep_view() =~= before.push(text@));
            }
            i += 1;
        }
        bank
    }

    /// Takes one choice away.
    pub fn drop_choice(&mut self, place: usize)
        requires
            place < old(self).choices.len(),
        ensures
            final(self).choices.deep_view() == old(self).choices.deep_view().remove(place as int),
            final(self).settings == old(self).settings,
            final(self).question == old(self).question,
            final(self).context == old(self).context,
            final(self).offered == old(self).offered,
    {
        let _ = self.choices.remove(place);
        assert(self.choices.deep_view() =~= old(self).choices.deep_view().remove(place as int));
    }

    /// The places of the choices that are not the answer.
    fn wrong_places(&self, answer: &str) -> (places: Vec<usize>)
        ensures
            forall|k: int|
                0 <= k < places.len() ==> (#[trigger] places[k]) < self.choices.len()
                    && self.choices[places[k] as int]@ != answer@,
            forall|i: int|
                0 <= i < self.choices.len() && self.choices[i]@ != answer@ ==> places@.contains(
                    i as usize,
                ),
    {
        let mut places: Vec<usize> = Vec::new();
        let mut i: usize = 0;
        while i < self.choices.len()
            invariant
                i <= self.choices.len(),
                forall|k: int|
                    0 <= k < places.len() ==> (#[trigger] places[k]) < self.choices.len()
                        && self.choices[places[k] as int]@ != answer@,
                forall|j: int|
                    0 <= j < i && self.choices[j]@ != answer@ ==> places@.contains(j as usize),
            decreases self.choices.len() - i,
        {
            if !str_eq(self.choices[i].as_str(), answer) {
                let ghost before = places@;
                places.push(i);
                assert(places@[places.len() - 1] == i);
                assert forall|j: int|
                    0 <= j < i + 1 && self.choices[j]@ != answer@ implies places@.contains(
                    j as usize,
                ) by {
                    if j < i {
                        assert(before.contains(j as usize));
                        let k = choose|k: int| 0 <= k < before.len() && before[k] == j as usize;
                        assert(places@[k] == j as usize);
                    }
                }
            }
            i += 1;
        }
        places
    }

    /// Answers with the choice of a given number, counted from one. A
    /// number that names no choice changes nothing and gives `None`.
    pub fn answer_choice(&mut self, n: usize, store: &mut QuestionStore) -> (outcome: Option<
        (bool, String),
    >)
        requires
            old(self).question is Some ==> old(self).ready(old(store)@),
            old(store).wf(),
            old(self).question matches Some(q) ==> old(store)@[q.index as int].has_room(HINT_SCALE),
        ensures
            *final(self) == *old(self),
            final(store).wf(),
            hint_cost(old(self).choices.len() as nat, old(self).offered as nat) <= HINT_SCALE,
            old(self).names_choice(n) ==> {
                &&& outcome matches Some(o)
                &&& o.0 == old(store)@[old(self).question->0.index as int].accepts(
                    old(self).choices[n - 1]@,
                )
                &&& o.1@ == old(store)@[old(self).question->0.index as int].expected()
                &&& after_answer(
                    old(store)@,
                    final(store)@,
                    old(self).question->0.index as int,
                    old(self).choices[n - 1]@,
                    hint_cost(old(self).choices.len() as nat, old(self).offered as nat),
                )
            },
            !old(self).names_choice(n) ==> outcome is None && final(store)@ == old(store)@,
    {
        let hints = hint_penalty(self.choices.len(), self.offered);
        if let Some(q) = self.question {
            if 0 < n && n <= self.choices.len() {
                let (correct, answer) = store.answer(q, self.choices[n - 1].as_str(), hints);
                return Some((correct, answer));
            }
        }
        None
    }

    /// Whether a number, counted from one, names one of the choices of a
    /// question that is set.
    pub open spec fn names_choice(&self, n: usize) -> bool {
        self.question is Some && 0 < n <= self.choices.len()
    }
}

impl Quiz for MultipleChoice {
    open spec fn wf(&self) -> bool {
        self.settings.choices >= 1
    }

    open spec fn applies(&self, q: QuestionView) -> bool {
        q.is_term()
    }

    open spec fn context(&self) -> CtxView {
        self.context@
    }

    open spec fn question(&self) -> Option<QuestionRef> {
        self.question
    }

    open spec fn choices(&self) -> Seq<Seq<char>> {
        self.choices.deep_view()
    }

    open spec fn ready(&self, store: Seq<QuestionView>) -> bool {
        &&& self.settings.choices >= 1
        &&& self.question matches Some(q)
        &&& q.index < store.len()
        &&& store[q.index as int].is_term()
        &&& well_chosen(self.choices.deep_view(), store[q.index as int].expected())
        &&& self.choices.len() <= self.offered
    }

    proof fn lemma_ready(&self, store: Seq<QuestionView>) {
    }

    /// Sets the choices: as many wrong answers as the settings ask for, or
    /// as many as the siblings have to give, and the right one, in an order
    /// that the generator decides.
    fn set_question(&mut self, q: QuestionRef, store: &QuestionStore, rng: &mut StdRng)
        ensures
            final(self).settings == old(self).settings,
            final(self).offered == final(self).choices.len(),
            final(self).choices.len() == 1 + vstd::math::min(
                old(self).settings.choices - 1,
                answer_bank(
                    store@,
                    old(self).context@.siblings,
                    store@[q.index as int].expected(),
                ).len() as int,
            ),
            forall|k: int|
                0 <= k < final(self).choices.len() && final(self).choices[k]@
                    != store@[q.index as int].expected() ==> answer_bank(
                    store@,
                    old(self).context@.siblings,
                    store@[q.index as int].expected(),
                ).contains(#[trigger] final(self).choices[k]@),
    {
        assert(store@[q.index as int] == store.questions[q.index as int]@);
        let answer = String::from_str(store.questions[q.index].peek());
        let bank = self.build_bank(store, answer.as_str());
        let ghost bank_texts = bank.deep_view();
        let ghost bank_items = bank@;
        proof {
            lemma_bank_upto(store@, self.context@.siblings, answer@, self.context@.siblings.len());
            assert forall|i: int, j: int| 0 <= i < j < bank@.len() implies (#[trigger] bank@[i])@ != (
            #[trigger] bank@[j])@ by {
                assert(bank_texts[i] == bank@[i]@);
                assert(bank_texts[j] == bank@[j]@);
            }
        }
        let wanted = self.settings.choices - 1;
        let amount = if wanted < bank.len() {
            wanted
        } else {
            bank.len()
        };
        let mut choices = choose_some(bank, amount, rng);
        proof {
            lemma_sample_texts(choices@, bank_items);
        }
        let ghost picked = choices@;
        choices.push(answer);
        let ghost unshuffled = choices@;
        proof {
            assert forall|i: int, j: int| 0 <= i < j < unshuffled.len() implies (
            #[trigger] unshuffled[i])@ != (#[trigger] unshuffled[j])@ by {
                if j == unshuffled.len() - 1 {
                    assert(unshuffled[i] == picked[i]);
                    assert(bank_items.contains(picked[i]));
                    let b = choose|b: int| 0 <= b < bank_items.len() && bank_items[b] == picked[i];
                    assert(bank_texts[b] == picked[i]@);
                    assert(bank_texts.contains(picked[i]@));
                } else {
                    assert(unshuffled[i] == picked[i]);
                    assert(unshuffled[j] == picked[j]);
                }
            }
        }
        shuffle(&mut choices, rng);
        proof {
            lemma_rearrangement_keeps(choices@, unshuffled);
            lemma_sample_texts(choices@, unshuffled);
            let texts = choices.deep_view();
            assert forall|i: int, j: int| 0 <= i < texts.len() && 0 <= j < texts.len() && i
                != j implies texts[i] != texts[j] by {
                assert(texts[i] == choices@[i]@);
                assert(texts[j] == choices@[j]@);
                if i < j {
                    assert(choices@[i]@ != choices@[j]@);
                } else {
                    assert(choices@[j]@ != choices@[i]@);
                }
            }
            assert(choices@.contains(unshuffled[unshuffled.len() - 1]));
            let a = choose|a: int| 0 <= a < choices@.len() && choices@[a] == unshuffled[unshuffled.len()
                - 1];
            assert(texts[a] == answer@);
            assert forall|k: int| 0 <= k < choices.len() && choices[k]@ != answer@ implies bank_texts.contains(
            #[trigger] choices[k]@) by {
                assert(unshuffled.contains(choices@[k]));
                let u = choose|u: int| 0 <= u < unshuffled.len() && unshuffled[u] == choices@[k];
                assert(u < picked.len());
                assert(unshuffled[u] == picked[u]);
                assert(bank_items.contains(picked[u]));
                let b = choose|b: int| 0 <= b < bank_items.len() && bank_items[b] == picked[u];
                assert(bank_texts[b] == picked[u]@);
            }
        }
        self.offer(q, choices);
    }

    fn set_context(&mut self, ctx: &QuestionCtx)
        ensures
            final(self).settings == old(self).settings,
            final(self).choices == old(self).choices,
            final(self).offered == old(self).offered,
    {
        self.context = ctx.duplicate();
    }

    fn get_context(&self) -> (ctx: &QuestionCtx) {
        &self.context
    }

    /// The prompt of the question, or nothing where no question is set.
    fn ask(&self, store: &QuestionStore) -> (text: String)
        ensures
            self.question matches Some(q) ==> text@ == store@[q.index as int].prompt(),
    {
        match self.question {
            Some(q) => {
                assert(store@[q.index as int] == store.questions[q.index as int]@);
                String::from_str(store.questions[q.index].ask())
            },
            None => String::new(),
        }
    }

    fn get_choices(&self) -> (choices: &Vec<String>) {
        &self.choices
    }

    /// While more than two choices are left, takes away one that is not the
    /// answer; the generator decides which.
    fn get_hint(&mut self, store: &QuestionStore, rng: &mut StdRng)
        ensures
            match old(self).question {
                Some(q) => hinted(*old(self), *final(self), store@[q.index as int].expected()),
                None => *final(self) == *old(self),
            },
    {
        if let Some(q) = self.question {
            if self.choices.len() > 2 {
                assert(store@[q.index as int] == store.questions[q.index as int]@);
                let answer = String::from_str(store.questions[q.index].peek());
                let wrong = self.wrong_places(answer.as_str());
                let ghost texts = self.choices.deep_view();
                proof {
                    // Of three choices at most one is the answer.
                    assert(texts[0] == self.choices[0]@);
                    assert(texts[1] == self.choices[1]@);
                    if self.choices[0]@ != answer@ {
                        assert(wrong@.contains(0usize));
                    } else {
                        assert(wrong@.contains(1usize));
                    }
                }
                match choose_one(&wrong, rng) {
                    Some(place) => {
                        proof {
                            let k = choose|k: int| 0 <= k < wrong@.len() && wrong@[k] == place;
                            assert(wrong[k] == place);
                        }
                        self.drop_choice(place);
                        proof {
                            let left = self.choices.deep_view();
                            assert(left == texts.remove(place as int));
                            assert(texts[place as int] == old(self).choices[place as int]@);
                            let a = choose|a: int| 0 <= a < texts.len() && texts[a] == answer@;
                            if a < place {
                                assert(left[a] == answer@);
                            } else {
                                assert(a != place);
                                assert(left[a - 1] == answer@);
                            }
                            assert forall|i: int, j: int|
                                0 <= i < left.len() && 0 <= j < left.len() && i != j implies left[i]
                                != left[j] by {
                                let i0 = if i < place { i } else { i + 1 };
                                let j0 = if j < place { j } else { j + 1 };
                                assert(left[i] == texts[i0]);
                                assert(left[j] == texts[j0]);
                            }
                            assert forall|k: int| 0 <= k < left.len() implies texts.contains(
                            #[trigger] left[k]) by {
                                let k0 = if k < place { k } else { k + 1 };
                                assert(texts[k0] == left[k]);
                            }
                        }
                    },
                    None => {},
                }
            }
        }
    }

    /// Reads the answer as the number of a choice, counted from one.
    fn answer(&mut self, ans: &str, store: &mut QuestionStore) -> (outcome: Option<(bool, String)>)
        ensures
            *final(self) == *old(self),
            match parsed_number(ans@) {
                Some(n) if old(self).names_choice(n) => {
                    &&& outcome matches Some(o)
                    &&& o.0 == old(store)@[old(self).question->0.index as int].accepts(
                        old(self).choices[n - 1]@,
                    )
                    &&& o.1@ == old(store)@[old(self).question->0.index as int].expected()
                    &&& after_answer(
                        old(store)@,
                        final(store)@,
                        old(self).question->0.index as int,
                        old(self).choices[n - 1]@,
                        hint_cost(old(self).choices.len() as nat, old(self).offered as nat),
                    )
                },
                _ => outcome is None && final(store)@ == old(store)@,
            },
    {
        match parse_number(ans) {
            Some(n) => {
                let outcome = self.answer_choice(n, store);
                proof {
                    if self.names_choice(n) {
                        assert(after_answer(
                            old(store)@,
                            store@,
                            self.question->0.index as int,
                            self.choices[n - 1]@,
                            hint_cost(self.choices.len() as nat, self.offered as nat),
                        ));
                    }
                }
                outcome
            },
            None => None,
        }
    }

    fn i_was_right(&mut self, store: &mut QuestionStore)
        ensures
            *final(self) == *old(self),
    {
        if let Some(q) = self.question {
            store.override_correct(q);
        }
    }

    /// Only flash cards have an answer that can stand among others.
    fn is_applicable(&self, q: &Question) -> (applicable: bool) {
        match q.data {
            QuestionVariant::Term(_) => true,
            _ => false,
        }
    }
}

} // verus!

use crate::engine::data::{QuestionRef, QuestionStore, QuestionView, Section};
use crate::engine::quiz::{QuestionCtx, Quiz};
use crate::engine::random::{
    choose_one, lemma_rearrangement_keeps, sample_of, shuffle, taken_at,
};
use rand::rngs::StdRng;
use crate::engine::text::clone_texts;
use vstd::prelude::*;

verus! {

/// How a session is set up.
#[derive(Clone, Copy, Debug)]
pub struct DSettings {
    pub recursive: bool,
    pub quiz_length: usize,
}

impl Default for DSettings {
    fn default() -> (settings: Self)
        ensures
            settings.recursive == false,
            settings.quiz_length == 20,
    {
        DSettings { recursive: false, quiz_length: 20 }
    }
}

/// What a session has added to a question's statistics.
#[derive(Clone, Copy, Debug)]
pub struct QuestionProgress {
    pub correct: usize,
    pub seen: usize,
    /// Hint cost in millionths of an answer.
    pub hints: u64,
}

/// What a session has added to the statistics of all its questions. The
/// score in percent is `(correct - hints / 1_000_000) / seen * 100`.
#[derive(Clone, Copy, Debug)]
pub struct Score {
    pub correct: u128,
    pub seen: u128,
    /// Hint cost in millionths of an answer.
    pub hints: u128,
}

/// The state of a session: how many questions it asks, how many of them
/// were answered correctly, and the score, if anything was answered.
#[derive(Clone, Copy, Debug)]
pub struct QuizProgress {
    pub questions: usize,
    pub learned: usize,
    pub score: Option<Score>,
}

/// What was known of a question when a session began, and where the
/// question sits.
#[derive(Debug)]
pub struct Baseline {
    pub correct: usize,
    pub seen: usize,
    pub hints: u64,
    pub mastery: u8,
    pub path: Vec<String>,
}

impl Baseline {
    /// This is the record of a question at a path.
    pub open spec fn records(&self, q: QuestionView, path: Seq<Seq<char>>) -> bool {
        &&& self.correct == q.correct
        &&& self.seen == q.seen
        &&& self.hints == q.hints
        &&& self.mastery == q.mastery
        &&& self.path.deep_view() == path
    }
}

/// A handle to a quiz that is registered with a dispatcher.
#[derive(Clone, Copy, Debug, PartialEq, Eq, Structural)]
pub struct QuizRef {
    pub index: usize,
}

/// The number of flags that are set.
pub open spec fn count_true(flags: Seq<bool>) -> nat
    decreases flags.len(),
{
    if flags.len() == 0 {
        0
    } else {
        count_true(flags.drop_last()) + if flags.last() {
            1nat
        } else {
            0nat
        }
    }
}

/// Setting one more flag raises the count by one.
pub proof fn lemma_count_set(flags: Seq<bool>, i: int)
    requires
        0 <= i < flags.len(),
        !flags[i],
    ensures
        count_true(flags.update(i, true)) == count_true(flags) + 1,
    decreases flags.len(),
{
    let after = flags.update(i, true);
    if i == flags.len() - 1 {
        assert(after.drop_last() =~= flags.drop_last());
    } else {
        lemma_count_set(flags.drop_last(), i);
        assert(after.drop_last() =~= flags.drop_last().update(i, true));
    }
}

/// No more flags are set than there are, and all are set only if each is.
pub proof fn lemma_count_bound(flags: Seq<bool>)
    ensures
        count_true(flags) <= flags.len(),
        (forall|i: int| 0 <= i < flags.len() ==> flags[i]) ==> count_true(flags) == flags.len(),
        (forall|i: int| 0 <= i < flags.len() ==> !flags[i]) ==> count_true(flags) == 0,
    decreases flags.len(),
{
    if flags.len() > 0 {
        lemma_count_bound(flags.drop_last());
        assert forall|i: int| 0 <= i < flags.drop_last().len() implies flags.drop_last()[i]
            == flags[i] by {}
    }
}

/// Whether entry `i` comes before entry `j` when the entries are put in
/// order of mastery, lowest first, and entries of equal mastery stay in the
/// order in which they stand.
pub open spec fn comes_before(masteries: Seq<u8>, i: int, j: int) -> bool {
    masteries[i] < masteries[j] || (masteries[i] == masteries[j] && i < j)
}

/// The flags mark the `cap` entries of lowest mastery, or all entries where
/// there are no more than `cap`.
pub open spec fn marks_lowest(masteries: Seq<u8>, flags: Seq<bool>, cap: nat) -> bool {
    &&& flags.len() == masteries.len()
    &&& count_true(flags) == vstd::math::min(cap as int, masteries.len() as int)
    &&& forall|i: int, j: int|
        0 <= i < flags.len() && 0 <= j < flags.len() && flags[i] && !flags[j] ==> comes_before(
            masteries,
            i,
            j,
        )
}

/// The masteries that a list of records holds.
pub open spec fn masteries_of(reference: Seq<Baseline>) -> Seq<u8> {
    Seq::new(reference.len(), |i: int| reference[i].mastery)
}

/// Whether entry `j` has had its turn when the walk through the levels of
/// mastery stands at entry `i` of level `level`.
pub open spec fn had_turn(masteries: Seq<u8>, j: int, level: int, i: int) -> bool {
    masteries[j] < level || (masteries[j] == level && j < i)
}

/// Marks the entries of lowest mastery, `cap` of them at most.
pub fn mark_lowest(reference: &Vec<Baseline>, cap: usize) -> (flags: Vec<bool>)
    ensures
        marks_lowest(masteries_of(reference@), flags@, cap as nat),
{
    let n = reference.len();
    let ghost masteries = masteries_of(reference@);
    let mut flags: Vec<bool> = Vec::new();
    let mut k: usize = 0;
    while k < n
        invariant
            k <= n,
            flags.len() == k,
            forall|j: int| 0 <= j < k ==> !flags[j],
        decreases n - k,
    {
        flags.push(false);
        k += 1;
    }
    proof {
        lemma_count_bound(flags@);
    }
    let mut taken: usize = 0;
    let mut level: u16 = 0;
    while level < 256
        invariant
            level <= 256,
            n == reference.len(),
            masteries == masteries_of(reference@),
            flags.len() == n,
            taken <= cap,
            count_true(flags@) == taken,
            forall|j: int| 0 <= j < n && flags[j] ==> had_turn(masteries, j, level as int, 0),
            forall|j: int|
                0 <= j < n && !flags[j] && had_turn(masteries, j, level as int, 0) ==> taken == cap,
            forall|a: int, b: int|
                0 <= a < n && 0 <= b < n && flags[a] && !flags[b] && had_turn(
                    masteries,
                    b,
                    level as int,
                    0,
                ) ==> comes_before(masteries, a, b),
        decreases 256 - level,
    {
        let mut i: usize = 0;
        while i < n
            invariant
                i <= n,
                level < 256,
                n == reference.len(),
                masteries == masteries_of(reference@),
                flags.len() == n,
                taken <= cap,
                count_true(flags@) == taken,
                forall|j: int|
                    0 <= j < n && flags[j] ==> had_turn(masteries, j, level as int, i as int),
                forall|j: int|
                    0 <= j < n && !flags[j] && had_turn(masteries, j, level as int, i as int)
                        ==> taken == cap,
                forall|a: int, b: int|
                    0 <= a < n && 0 <= b < n && flags[a] && !flags[b] && had_turn(
                        masteries,
                        b,
                        level as int,
                        i as int,
                    ) ==> comes_before(masteries, a, b),
            decreases n - i,
        {
            assert(masteries[i as int] == reference[i as int].mastery);
            if reference[i].mastery as u16 == level && taken < cap {
                proof {
                    lemma_count_set(flags@, i as int);
                }
                flags.set(i, true);
                taken += 1;
            }
            i += 1;
        }
        level += 1;
    }
    proof {
        lemma_count_bound(flags@);
        assert forall|j: int| 0 <= j < n implies had_turn(masteries, j, 256, 0) by {}
        if taken < cap {
            assert forall|j: int| 0 <= j < n implies flags[j] by {
                assert(had_turn(masteries, j, 256, 0));
            }
        }
    }
    flags
}

/// Walks a section, and the sections below it if `recursive`, and adds each
/// question with the record of its present state.
fn traverse(
    section: &Section,
    above: &Vec<String>,
    recursive: bool,
    store: &QuestionStore,
    questions: &mut Vec<QuestionRef>,
    reference: &mut Vec<Baseline>,
)
    requires
        section.fits(store@.len()),
        old(questions).len() == old(reference).len(),
    ensures
        final(questions)@ == old(questions)@ + section.gathered(recursive),
        final(reference).len() == final(questions).len(),
        section.trails(above.deep_view(), recursive).len() == section.gathered(recursive).len(),
        forall|i: int| 0 <= i < old(reference).len() ==> final(reference)[i] == old(reference)[i],
        forall|i: int|
            old(reference).len() <= i < final(reference).len() ==> (#[trigger] final(reference)[i]).records(
                store@[final(questions)[i].index as int],
                section.trails(above.deep_view(), recursive)[i - old(reference).len()],
            ),
    decreases section,
{
    let mut path = clone_texts(above);
    path.push(section.name.clone());
    let ghost trail = above.deep_view().push(section.name@);
    assert(path.deep_view() =~= trail);
    let ghost base = questions.len();
    let ghost own = Seq::new(section.questions.len() as nat, |i: int| trail);
    let mut i: usize = 0;
    while i < section.questions.len()
        invariant
            i <= section.questions.len(),
            section.fits(store@.len()),
            path.deep_view() == trail,
            base == old(questions).len(),
            questions@ == old(questions)@ + section.questions@.take(i as int),
            reference.len() == questions.len(),
            forall|k: int| 0 <= k < base ==> reference[k] == old(reference)[k],
            forall|k: int|
                base <= k < reference.len() ==> (#[trigger] reference[k]).records(
                    store@[questions[k].index as int],
                    trail,
                ),
        decreases section.questions.len() - i,
    {
        let r = section.questions[i];
        assert(store@[r.index as int] == store.questions[r.index as int]@);
        let q = &store.questions[r.index];
        let record = Baseline {
            correct: q.correct,
            seen: q.seen,
            hints: q.hints,
            mastery: q.mastery,
            path: clone_texts(&path),
        };
        questions.push(r);
        reference.push(record);
        assert(questions@ =~= old(questions)@ + section.questions@.take(i + 1));
        i += 1;
    }
    assert(section.questions@.take(i as int) =~= section.questions@);
    if recursive {
        let mut k: usize = 0;
        assert(questions@ =~= old(questions)@ + (section.questions@ + section.gathered_upto(0)));
        assert(own + section.trails_upto(trail, 0) =~= own);
        while k < section.children.len()
            invariant
                k <= section.children.len(),
                section.fits(store@.len()),
                path.deep_view() == trail,
                base == old(questions).len(),
                own == Seq::new(section.questions.len() as nat, |i: int| trail),
                questions@ == old(questions)@ + (section.questions@ + section.gathered_upto(
                    k as nat,
                )),
                reference.len() == questions.len(),
                section.trails_upto(trail, k as nat).len() == section.gathered_upto(k as nat).len(),
                forall|j: int| 0 <= j < base ==> reference[j] == old(reference)[j],
                forall|j: int|
                    base <= j < reference.len() ==> (#[trigger] reference[j]).records(
                        store@[questions[j].index as int],
                        (own + section.trails_upto(trail, k as nat))[j - base],
                    ),
            decreases section.children.len() - k,
        {
            let ghost before_q = questions@;
            let ghost before_r = reference@;
            let ghost so_far = own + section.trails_upto(trail, k as nat);
            traverse(&section.children[k], &path, true, store, questions, reference);
            let ghost below = section.children[k as int].trails(trail, true);
            k += 1;
            proof {
                assert(section.gathered_upto(k as nat) == section.gathered_upto((k - 1) as nat)
                    + section.children[k - 1].gathered(true));
                assert(section.trails_upto(trail, k as nat) == section.trails_upto(
                    trail,
                    (k - 1) as nat,
                ) + below);
                assert(questions@ =~= old(questions)@ + (section.questions@
                    + section.gathered_upto(k as nat)));
                let now = own + section.trails_upto(trail, k as nat);
                assert(now =~= so_far + below);
                assert forall|j: int| base <= j < reference.len() implies (
                #[trigger] reference[j]).records(
                    store@[questions[j].index as int],
                    now[j - base],
                ) by {
                    if j < before_r.len() {
                        assert(reference[j] == before_r[j]);
                        assert(questions@[j] == before_q[j]);
                        assert(now[j - base] == so_far[j - base]);
                    } else {
                        assert(now[j - base] == below[j - before_r.len()]);
                    }
                }
            }
        }
    }
}

/// Picks the questions of a session and the quiz for each, and tells how
/// far the session has come.
pub struct Dispatcher<Q: Quiz> {
    /// The questions of the session.
    pub questions: Vec<QuestionRef>,
    /// The kinds of quiz that can be dispatched.
    pub quizzes: Vec<Q>,
    /// For each question, what was known of it when the session began.
    pub reference: Vec<Baseline>,
    /// For each question, whether it is among those that the session asks.
    pub pool: Vec<bool>,
    pub settings: DSettings,
}

impl<Q: Quiz> Dispatcher<Q> {
    /// There is a record and a flag for each question, the flags mark the
    /// questions of lowest mastery, as many as the session is long, and each
    /// quiz has usable settings.
    pub open spec fn wf(&self) -> bool {
        &&& self.reference.len() == self.questions.len()
        &&& marks_lowest(
            masteries_of(self.reference@),
            self.pool@,
            self.settings.quiz_length as nat,
        )
        &&& forall|k: int| 0 <= k < self.quizzes.len() ==> (#[trigger] self.quizzes[k]).wf()
    }

    /// Each question of the session is in the store, with statistics that
    /// have not fallen since the session began.
    pub open spec fn tracks(&self, store: Seq<QuestionView>) -> bool {
        forall|i: int|
            0 <= i < self.questions.len() ==> {
                &&& (#[trigger] self.questions[i]).index < store.len()
                &&& self.reference[i].correct <= store[self.questions[i].index as int].correct
                &&& self.reference[i].seen <= store[self.questions[i].index as int].seen
                &&& self.reference[i].hints <= store[self.questions[i].index as int].hints
            }
    }

    /// What the session has added to the statistics of question `i`.
    pub open spec fn gained(&self, store: Seq<QuestionView>, i: int) -> QuestionProgress {
        let q = store[self.questions[i].index as int];
        let was = self.reference[i];
        QuestionProgress {
            correct: (q.correct - was.correct) as usize,
            seen: (q.seen - was.seen) as usize,
            hints: (q.hints - was.hints) as u64,
        }
    }

    /// Whether question `i` is still to be learned: it is among those that
    /// the session asks, and was not answered correctly in the session.
    pub open spec fn is_remaining(&self, store: Seq<QuestionView>, i: int) -> bool {
        &&& 0 <= i < self.questions.len()
        &&& self.pool[i]
        &&& self.gained(store, i).correct < 1
    }

    /// Among the first `k` questions, the places of those still to be
    /// learned, in order.
    pub open spec fn remaining_upto(&self, store: Seq<QuestionView>, k: nat) -> Seq<int>
        decreases k,
    {
        if k == 0 {
            Seq::empty()
        } else {
            let before = self.remaining_upto(store, (k - 1) as nat);
            if self.is_remaining(store, k - 1) {
                before.push(k - 1)
            } else {
                before
            }
        }
    }

    /// The places of the questions still to be learned, in order.
    pub open spec fn remaining_places(&self, store: Seq<QuestionView>) -> Seq<int> {
        self.remaining_upto(store, self.questions.len() as nat)
    }

    /// The questions still to be learned, in the order of the session.
    pub open spec fn remaining(&self, store: Seq<QuestionView>) -> Seq<QuestionRef> {
        Seq::new(
            self.remaining_places(store).len(),
            |k: int| self.questions[self.remaining_places(store)[k]],
        )
    }

    /// The number of questions that the session asks.
    pub open spec fn length(&self) -> nat {
        vstd::math::min(self.settings.quiz_length as int, self.questions.len() as int) as nat
    }

    /// The number of questions of the session that were answered correctly
    /// in it.
    pub open spec fn learned(&self, store: Seq<QuestionView>) -> int {
        self.length() - self.remaining_places(store).len()
    }

    /// What the session has added to the statistics of its first `k`
    /// questions: answers that were correct, answers, and hint cost.
    pub open spec fn totals_upto(&self, store: Seq<QuestionView>, k: nat) -> (int, int, int)
        decreases k,
    {
        if k == 0 {
            (0, 0, 0)
        } else {
            let before = self.totals_upto(store, (k - 1) as nat);
            let gained = self.gained(store, k - 1);
            (before.0 + gained.correct, before.1 + gained.seen, before.2 + gained.hints)
        }
    }

    /// What the session has added to the statistics of all its questions.
    pub open spec fn totals(&self, store: Seq<QuestionView>) -> (int, int, int) {
        self.totals_upto(store, self.questions.len() as nat)
    }

    /// The score of the session: the totals, unless nothing was answered.
    pub open spec fn score_of(&self, store: Seq<QuestionView>) -> Option<Score> {
        let totals = self.totals(store);
        if totals.1 > 0 {
            Some(Score { correct: totals.0 as u128, seen: totals.1 as u128, hints: totals.2 as u128 })
        } else {
            None
        }
    }

    /// The places still to be learned are places of the pool, each once and
    /// in rising order, and no more than the pool holds.
    pub proof fn lemma_remaining_upto(&self, store: Seq<QuestionView>, k: nat)
        requires
            k <= self.questions.len(),
            self.pool.len() == self.questions.len(),
        ensures
            self.remaining_upto(store, k).len() <= count_true(self.pool@.take(k as int)),
            forall|j: int|
                0 <= j < self.remaining_upto(store, k).len() ==> 0 <= #[trigger] self.remaining_upto(
                    store,
                    k,
                )[j] < k && self.is_remaining(store, self.remaining_upto(store, k)[j]),
            forall|i: int|
                0 <= i < k && self.is_remaining(store, i) ==> self.remaining_upto(store, k).contains(
                    i,
                ),
        decreases k,
    {
        if k > 0 {
            self.lemma_remaining_upto(store, (k - 1) as nat);
            let before = self.remaining_upto(store, (k - 1) as nat);
            let now = self.remaining_upto(store, k);
            assert(self.pool@.take(k as int).drop_last() =~= self.pool@.take(k - 1));
            assert(self.pool@.take(k as int).last() == self.pool[k - 1]);
            assert forall|i: int| 0 <= i < k && self.is_remaining(store, i) implies now.contains(
                i,
            ) by {
                if i < k - 1 {
                    assert(before.contains(i));
                    let j = choose|j: int| 0 <= j < before.len() && before[j] == i;
                    assert(now[j] == i);
                } else {
                    assert(now[now.len() - 1] == i);
                }
            }
        }
    }

    /// The number of questions learned never falls while a session goes
    /// on, and never exceeds the number of questions that the session asks:
    /// `after` are the questions of `before` at a later time, when more of
    /// them may have been answered correctly, and none less often.
    pub proof fn lemma_learned_rises(&self, before: Seq<QuestionView>, after: Seq<QuestionView>)
        requires
            self.wf(),
            self.tracks(before),
            after.len() == before.len(),
            forall|i: int| 0 <= i < before.len() ==> before[i].correct <= (#[trigger] after[i]).correct,
        ensures
            0 <= self.learned(before) <= self.learned(after) <= self.length(),
    {
        self.lemma_remaining_shrinks(before, after, self.questions.len() as nat);
        self.lemma_remaining_upto(before, self.questions.len() as nat);
        self.lemma_remaining_upto(after, self.questions.len() as nat);
        assert(self.pool@.take(self.questions.len() as int) =~= self.pool@);
    }

    /// Among the first `k` questions, no more are still to be learned at a
    /// later time than were before.
    pub proof fn lemma_remaining_shrinks(
        &self,
        before: Seq<QuestionView>,
        after: Seq<QuestionView>,
        k: nat,
    )
        requires
            k <= self.questions.len(),
            self.reference.len() == self.questions.len(),
            self.tracks(before),
            after.len() == before.len(),
            forall|i: int| 0 <= i < before.len() ==> before[i].correct <= (#[trigger] after[i]).correct,
        ensures
            self.remaining_upto(after, k).len() <= self.remaining_upto(before, k).len(),
        decreases k,
    {
        if k > 0 {
            self.lemma_remaining_shrinks(before, after, (k - 1) as nat);
            let q = self.questions[k - 1].index as int;
            assert(before[q].correct <= after[q].correct);
        }
    }

    /// Two dispatchers run the same session: they have the same questions,
    /// records, flags and settings. Their quizzes may differ.
    pub open spec fn same_session(&self, other: Self) -> bool {
        &&& self.questions == other.questions
        &&& self.reference == other.reference
        &&& self.pool == other.pool
        &&& self.settings == other.settings
    }

    /// A dispatcher goes on to go with the questions when one of them takes
    /// an answer or has one marked correct, since no statistic falls.
    pub proof fn lemma_tracks_on(&self, before: Seq<QuestionView>, after: Seq<QuestionView>, q: int)
        requires
            self.tracks(before),
            0 <= q < before.len(),
            after == before.update(q, after[q]),
            before[q].correct <= after[q].correct,
            before[q].seen <= after[q].seen,
            before[q].hints <= after[q].hints,
        ensures
            self.tracks(after),
    {
        assert forall|i: int| 0 <= i < self.questions.len() implies {
            &&& (#[trigger] self.questions[i]).index < after.len()
            &&& self.reference[i].correct <= after[self.questions[i].index as int].correct
            &&& self.reference[i].seen <= after[self.questions[i].index as int].seen
            &&& self.reference[i].hints <= after[self.questions[i].index as int].hints
        } by {
            if self.questions[i].index as int != q {
                assert(after[self.questions[i].index as int] == before[self.questions[i].index as int]);
            }
        }
    }

    /// What two dispatchers with the same questions, records, flags and
    /// settings say of a session is the same.
    pub proof fn lemma_same_session(&self, other: Self, store: Seq<QuestionView>)
        requires
            self.questions == other.questions,
            self.reference == other.reference,
            self.pool == other.pool,
            self.settings == other.settings,
        ensures
            self.remaining_places(store) == other.remaining_places(store),
            self.remaining(store) == other.remaining(store),
            self.length() == other.length(),
            self.learned(store) == other.learned(store),
            self.totals(store) == other.totals(store),
            self.score_of(store) == other.score_of(store),
    {
        self.lemma_same_upto(other, store, self.questions.len() as nat);
    }

    /// What two dispatchers with the same questions, records, flags and
    /// settings say of the first `k` questions of a session is the same.
    pub proof fn lemma_same_upto(&self, other: Self, store: Seq<QuestionView>, k: nat)
        requires
            self.questions == other.questions,
            self.reference == other.reference,
            self.pool == other.pool,
            self.settings == other.settings,
        ensures
            self.remaining_upto(store, k) == other.remaining_upto(store, k),
            self.totals_upto(store, k) == other.totals_upto(store, k),
        decreases k,
    {
        if k > 0 {
            self.lemma_same_upto(other, store, (k - 1) as nat);
        }
    }

    /// Sets the questions of a session: those of a section, and of the
    /// sections below it if the settings say so, each with a record of its
    /// present state. No quiz is registered yet.
    pub fn new(settings: DSettings, section: &Section, store: &QuestionStore) -> (dispatcher: Self)
        requires
            section.fits(store@.len()),
        ensures
            dispatcher.wf(),
            dispatcher.tracks(store@),
            dispatcher.settings == settings,
            dispatcher.quizzes.len() == 0,
            dispatcher.questions@ == section.gathered(settings.recursive),
            section.trails(Seq::empty(), settings.recursive).len() == dispatcher.questions.len(),
            forall|i: int|
                0 <= i < dispatcher.questions.len() ==> (#[trigger] dispatcher.reference[i]).records(
                    store@[dispatcher.questions[i].index as int],
                    section.trails(Seq::empty(), settings.recursive)[i],
                ),
    {
        let mut questions: Vec<QuestionRef> = Vec::new();
        let mut reference: Vec<Baseline> = Vec::new();
        let above: Vec<String> = Vec::new();
        assert(above.deep_view() =~= Seq::<Seq<char>>::empty());
        traverse(section, &above, settings.recursive, store, &mut questions, &mut reference);
        assert(questions@ =~= section.gathered(settings.recursive));
        let pool = mark_lowest(&reference, settings.quiz_length);
        let dispatcher = Dispatcher { questions, quizzes: Vec::new(), reference, pool, settings };
        proof {
            section.lemma_gathered_fit(store@.len(), settings.recursive);
        }
        dispatcher
    }

    /// Adds a kind of quiz to those that can be dispatched.
    pub fn register_quiz(&mut self, quiz: Q)
        requires
            quiz.wf(),
        ensures
            final(self).quizzes@ == old(self).quizzes@.push(quiz),
            final(self).questions == old(self).questions,
            final(self).reference == old(self).reference,
            final(self).pool == old(self).pool,
            final(self).settings == old(self).settings,
            old(self).wf() ==> final(self).wf(),
    {
        self.quizzes.push(quiz);
    }

    /// What the session has added to the statistics of its question
    /// number `entry`.
    pub fn question_progress(&self, entry: usize, store: &QuestionStore) -> (gained:
        QuestionProgress)
        requires
            entry < self.questions.len(),
            self.reference.len() == self.questions.len(),
            self.tracks(store@),
        ensures
            gained == self.gained(store@, entry as int),
    {
        let r = self.questions[entry];
        assert(store@[r.index as int] == store.questions[r.index as int]@);
        let question = &store.questions[r.index];
        let was = &self.reference[entry];
        QuestionProgress {
            correct: question.correct - was.correct,
            seen: question.seen - was.seen,
            hints: question.hints - was.hints,
        }
    }

    /// The places of the questions still to be learned.
    pub fn remaining_entries(&self, store: &QuestionStore) -> (places: Vec<usize>)
        requires
            self.wf(),
            self.tracks(store@),
        ensures
            places@.len() == self.remaining_places(store@).len(),
            forall|k: int| 0 <= k < places.len() ==> places[k] == self.remaining_places(store@)[k],
    {
        let mut places: Vec<usize> = Vec::new();
        let mut i: usize = 0;
        while i < self.questions.len()
            invariant
                i <= self.questions.len(),
                self.wf(),
                self.tracks(store@),
                places@.len() == self.remaining_upto(store@, i as nat).len(),
                forall|k: int|
                    0 <= k < places.len() ==> places[k] == self.remaining_upto(store@, i as nat)[k],
            decreases self.questions.len() - i,
        {
            if self.pool[i] && self.question_progress(i, store).correct < 1 {
                places.push(i);
            }
            i += 1;
        }
        places
    }

    /// The questions still to be learned: those among the questions of
    /// lowest mastery, as many as the session is long, that were not yet
    /// answered correctly in this session.
    pub fn remaining_questions(&self, store: &QuestionStore) -> (left: Vec<QuestionRef>)
        requires
            self.wf(),
            self.tracks(store@),
        ensures
            left@ == self.remaining(store@),
    {
        let places = self.remaining_entries(store);
        let mut left: Vec<QuestionRef> = Vec::new();
        let mut k: usize = 0;
        proof {
            self.lemma_remaining_upto(store@, self.questions.len() as nat);
        }
        while k < places.len()
            invariant
                k <= places.len(),
                left.len() == k,
                places@.len() == self.remaining_places(store@).len(),
                forall|j: int|
                    0 <= j < places.len() ==> places[j] == self.remaining_places(store@)[j],
                forall|j: int|
                    0 <= j < places.len() ==> 0 <= #[trigger] self.remaining_places(store@)[j]
                        < self.questions.len(),
                forall|j: int| 0 <= j < k ==> left[j] == self.remaining(store@)[j],
            decreases places.len() - k,
        {
            assert(0 <= self.remaining_places(store@)[k as int] < self.questions.len());
            left.push(self.questions[places[k]]);
            k += 1;
        }
        assert(left@ =~= self.remaining(store@));
        left
    }

    /// The score of the session so far, if anything was answered.
    pub fn score(&self, store: &QuestionStore) -> (score: Option<Score>)
        requires
            self.reference.len() == self.questions.len(),
            self.tracks(store@),
        ensures
            score == self.score_of(store@),
    {
        let mut correct: u128 = 0;
        let mut seen: u128 = 0;
        let mut hints: u128 = 0;
        let mut i: usize = 0;
        while i < self.questions.len()
            invariant
                i <= self.questions.len(),
                self.reference.len() == self.questions.len(),
                self.tracks(store@),
                correct == self.totals_upto(store@, i as nat).0,
                seen == self.totals_upto(store@, i as nat).1,
                hints == self.totals_upto(store@, i as nat).2,
                correct <= i * 0xffff_ffff_ffff_ffff,
                seen <= i * 0xffff_ffff_ffff_ffff,
                hints <= i * 0xffff_ffff_ffff_ffff,
            decreases self.questions.len() - i,
        {
            let gained = self.question_progress(i, store);
            assert(i * 0xffff_ffff_ffff_ffff + 0xffff_ffff_ffff_ffff <= 0xffff_ffff_ffff_ffff
                * 0xffff_ffff_ffff_ffff + 0xffff_ffff_ffff_ffff) by (nonlinear_arith)
                requires
                    i <= 0xffff_ffff_ffff_ffff,
            ;
            assert((i + 1) * 0xffff_ffff_ffff_ffff == i * 0xffff_ffff_ffff_ffff
                + 0xffff_ffff_ffff_ffff) by (nonlinear_arith);
            correct += gained.correct as u128;
            seen += gained.seen as u128;
            hints += gained.hints as u128;
            i += 1;
        }
        if seen > 0 {
            Some(Score { correct, seen, hints })
        } else {
            None
        }
    }

    /// The number of questions that the session asks, how many of them have
    /// been learned, and the score so far.
    pub fn progress(&self, store: &QuestionStore) -> (progress: QuizProgress)
        requires
            self.wf(),
            self.tracks(store@),
        ensures
            progress.questions == self.length(),
            progress.learned == self.learned(store@),
            progress.learned <= progress.questions,
            progress.score == self.score_of(store@),
    {
        let questions = if self.settings.quiz_length < self.questions.len() {
            self.settings.quiz_length
        } else {
            self.questions.len()
        };
        let left = self.remaining_entries(store);
        proof {
            self.lemma_remaining_upto(store@, self.questions.len() as nat);
            assert(self.pool@.take(self.questions.len() as int) =~= self.pool@);
        }
        QuizProgress { questions, learned: questions - left.len(), score: self.score(store) }
    }

    /// Whether question `i` is due: it is still to be learned, and none of
    /// those was asked less often in this session.
    pub open spec fn is_due(&self, store: Seq<QuestionView>, i: int) -> bool {
        &&& self.is_remaining(store, i)
        &&& forall|j: int|
            self.is_remaining(store, j) ==> self.gained(store, i).seen <= (#[trigger] self.gained(
                store,
                j,
            )).seen
    }

    /// Whether one of the registered quizzes can ask question `i`.
    pub open spec fn askable(&self, store: Seq<QuestionView>, i: int) -> bool {
        exists|k: int|
            0 <= k < self.quizzes.len() && (#[trigger] self.quizzes[k]).applies(
                store[self.questions[i].index as int],
            )
    }

    /// Among the first `k` questions of the session, those that a quiz can
    /// ask, in order.
    pub open spec fn siblings_upto(&self, quiz: Q, store: Seq<QuestionView>, k: nat) -> Seq<
        QuestionRef,
    >
        decreases k,
    {
        if k == 0 {
            Seq::empty()
        } else {
            let before = self.siblings_upto(quiz, store, (k - 1) as nat);
            if quiz.applies(store[self.questions[k - 1].index as int]) {
                before.push(self.questions[k - 1])
            } else {
                before
            }
        }
    }

    /// The questions of the session that a quiz can ask, in order.
    pub open spec fn siblings_for(&self, quiz: Q, store: Seq<QuestionView>) -> Seq<QuestionRef> {
        self.siblings_upto(quiz, store, self.questions.len() as nat)
    }

    /// `after` are the quizzes of this dispatcher once its quiz number `k` is
    /// set up for its question number `e`: the quiz can ask the question and
    /// is ready to, its context is the path to the question with the questions
    /// that the quiz can ask, and the other quizzes are as they were.
    pub open spec fn set_up(&self, after: Seq<Q>, store: Seq<QuestionView>, e: int, k: int) -> bool {
        &&& 0 <= e < self.questions.len()
        &&& 0 <= k < self.quizzes.len()
        &&& self.quizzes[k].applies(store[self.questions[e].index as int])
        &&& after.len() == self.quizzes.len()
        &&& forall|j: int|
            0 <= j < self.quizzes.len() && j != k ==> #[trigger] after[j] == self.quizzes[j]
        &&& after[k].question() == Some(self.questions[e])
        &&& after[k].context().path == self.reference[e].path.deep_view()
        &&& after[k].context().siblings == self.siblings_for(self.quizzes[k], store)
        &&& after[k].ready(store)
        &&& forall|v: QuestionView| after[k].applies(v) == self.quizzes[k].applies(v)
    }

    /// `after` are the quizzes of this dispatcher once it has dispatched its
    /// question number `e` to its quiz number `k`: the question is due, and
    /// the quiz is set up for it.
    pub open spec fn dispatched(&self, after: Seq<Q>, store: Seq<QuestionView>, e: int, k: int) -> bool {
        self.is_due(store, e) && self.set_up(after, store, e, k)
    }

    /// The questions of the session that a quiz can ask.
    fn gather_siblings(&self, k: usize, store: &QuestionStore) -> (siblings: Vec<QuestionRef>)
        requires
            k < self.quizzes.len(),
            self.tracks(store@),
        ensures
            siblings@ == self.siblings_for(self.quizzes[k as int], store@),
            forall|i: int|
                0 <= i < siblings.len() ==> (#[trigger] siblings[i]).index < store@.len()
                    && self.quizzes[k as int].applies(store@[siblings[i].index as int]),
    {
        let mut siblings: Vec<QuestionRef> = Vec::new();
        let mut i: usize = 0;
        while i < self.questions.len()
            invariant
                i <= self.questions.len(),
                k < self.quizzes.len(),
                self.tracks(store@),
                siblings@ == self.siblings_upto(self.quizzes[k as int], store@, i as nat),
                forall|j: int|
                    0 <= j < siblings.len() ==> (#[trigger] siblings[j]).index < store@.len()
                        && self.quizzes[k as int].applies(store@[siblings[j].index as int]),
            decreases self.questions.len() - i,
        {
            let r = self.questions[i];
            assert(store@[r.index as int] == store.questions[r.index as int]@);
            if self.quizzes[k].is_applicable(&store.questions[r.index]) {
                siblings.push(r);
            }
            i += 1;
        }
        siblings
    }

    /// The registered quizzes that can ask a question.
    fn able_quizzes(&self, r: QuestionRef, store: &QuestionStore) -> (able: Vec<usize>)
        requires
            store.holds(r),
        ensures
            forall|j: int|
                0 <= j < able.len() ==> (#[trigger] able[j]) < self.quizzes.len()
                    && self.quizzes[able[j] as int].applies(store@[r.index as int]),
            forall|k: int|
                0 <= k < self.quizzes.len() && (#[trigger] self.quizzes[k]).applies(
                    store@[r.index as int],
                ) ==> able.len() > 0,
    {
        let mut able: Vec<usize> = Vec::new();
        let mut k: usize = 0;
        assert(store@[r.index as int] == store.questions[r.index as int]@);
        while k < self.quizzes.len()
            invariant
                k <= self.quizzes.len(),
                store.holds(r),
                store@[r.index as int] == store.questions[r.index as int]@,
                forall|j: int|
                    0 <= j < able.len() ==> (#[trigger] able[j]) < self.quizzes.len()
                        && self.quizzes[able[j] as int].applies(store@[r.index as int]),
                forall|j: int|
                    0 <= j < k && (#[trigger] self.quizzes[j]).applies(store@[r.index as int])
                        ==> able.len() > 0,
            decreases self.quizzes.len() - k,
        {
            if self.quizzes[k].is_applicable(&store.questions[r.index]) {
                able.push(k);
            }
            k += 1;
        }
        able
    }

    /// Sets up a quiz for a question of the session: gives it the path to
    /// the question and the questions that it can ask as its context, and then
    /// the question.
    pub fn dispatch(&mut self, entry: usize, quiz: QuizRef, store: &QuestionStore, rng: &mut StdRng)
        requires
            old(self).wf(),
            old(self).tracks(store@),
            entry < old(self).questions.len(),
            quiz.index < old(self).quizzes.len(),
            old(self).quizzes[quiz.index as int].applies(
                store@[old(self).questions[entry as int].index as int],
            ),
        ensures
            final(self).wf(),
            final(self).tracks(store@),
            final(self).questions == old(self).questions,
            final(self).reference == old(self).reference,
            final(self).pool == old(self).pool,
            final(self).settings == old(self).settings,
            old(self).set_up(final(self).quizzes@, store@, entry as int, quiz.index as int),
    {
        let k = quiz.index;
        let question = self.questions[entry];
        let siblings = self.gather_siblings(k, store);
        let path = clone_texts(&self.reference[entry].path);
        let ctx = QuestionCtx { path, siblings };
        let mut chosen = self.quizzes.remove(k);
        chosen.set_context(&ctx);
        chosen.set_question(question, store, rng);
        proof {
            chosen.lemma_ready(store@);
        }
        self.quizzes.insert(k, chosen);
        assert(self.quizzes@ =~= old(self).quizzes@.update(k as int, chosen));
    }

    /// Sets up the next quiz: takes, among the questions still to be learned,
    /// one of those asked least often in this session, and one of the
    /// registered quizzes that can ask it; the generator decides where there
    /// are several. Gives `None` when nothing is left to learn, or when no
    /// registered quiz can ask the question that was taken.
    pub fn next(&mut self, store: &QuestionStore, rng: &mut StdRng) -> (quiz: Option<QuizRef>)
        requires
            old(self).wf(),
            old(self).tracks(store@),
            old(self).quizzes.len() > 0,
        ensures
            final(self).wf(),
            final(self).tracks(store@),
            final(self).questions == old(self).questions,
            final(self).reference == old(self).reference,
            final(self).pool == old(self).pool,
            final(self).settings == old(self).settings,
            final(self).quizzes.len() == old(self).quizzes.len(),
            quiz matches Some(r) ==> exists|e: int|
                #![trigger old(self).is_due(store@, e)]
                old(self).dispatched(final(self).quizzes@, store@, e, r.index as int),
            quiz is None ==> final(self).quizzes@ == old(self).quizzes@,
            quiz is None ==> old(self).remaining_places(store@).len() == 0 || exists|e: int|
                old(self).is_due(store@, e) && !old(self).askable(store@, e),
    {
        let mut places = self.remaining_entries(store);
        let ghost listed = places@;
        proof {
            self.lemma_remaining_upto(store@, self.questions.len() as nat);
        }
        shuffle(&mut places, rng);
        proof {
            lemma_rearrangement_keeps(places@, listed);
            lemma_sample_places(places@, listed);
        }
        if places.len() == 0 {
            return None;
        }
        let mut best: usize = 0;
        let mut least = self.question_progress(places[0], store).seen;
        let mut i: usize = 1;
        while i < places.len()
            invariant
                1 <= i <= places.len(),
                best < i,
                self.wf(),
                self.tracks(store@),
                forall|j: int|
                    0 <= j < places.len() ==> self.is_remaining(store@, #[trigger] places[j] as int),
                least == self.gained(store@, places[best as int] as int).seen,
                forall|j: int|
                    0 <= j < i ==> least <= self.gained(store@, #[trigger] places[j] as int).seen,
            decreases places.len() - i,
        {
            let seen = self.question_progress(places[i], store).seen;
            if seen < least {
                best = i;
                least = seen;
            }
            i += 1;
        }
        let entry = places[best];
        let question = self.questions[entry];
        proof {
            assert(self.is_remaining(store@, entry as int));
            assert forall|j: int| self.is_remaining(store@, j) implies self.gained(
                store@,
                entry as int,
            ).seen <= (#[trigger] self.gained(store@, j)).seen by {
                assert(self.remaining_places(store@).contains(j));
                let a = choose|a: int|
                    0 <= a < self.remaining_places(store@).len() && self.remaining_places(
                        store@,
                    )[a] == j;
                assert(listed[a] == j as usize);
                assert(places@.contains(listed[a]));
                let b = choose|b: int| 0 <= b < places@.len() && places@[b] == listed[a];
                assert(places[b] as int == j);
            }
            assert(self.is_due(store@, entry as int));
        }
        let able = self.able_quizzes(question, store);
        let k = match choose_one(&able, rng) {
            Some(k) => k,
            None => {
                proof {
                    assert(!self.askable(store@, entry as int));
                }
                return None;
            },
        };
        proof {
            let a = choose|a: int| 0 <= a < able@.len() && able@[a] == k;
            assert(able[a] == k);
        }
        let r = QuizRef { index: k };
        self.dispatch(entry, r, store, rng);
        assert(old(self).dispatched(self.quizzes@, store@, entry as int, r.index as int));
        Some(r)
    }
}

/// What a rearrangement of a list of places keeps: each of its places is one
/// of the list.
proof fn lemma_sample_places(after: Seq<usize>, before: Seq<usize>)
    requires
        sample_of(after, before),
    ensures
        forall|k: int| 0 <= k < after.len() ==> before.contains(#[trigger] after[k]),
{
    let places = choose|places: Seq<int>| taken_at(after, before, places);
    assert forall|k: int| 0 <= k < after.len() implies before.contains(#[trigger] after[k]) by {
        assert(before[places[k]] == after[k]);
    }
}

} // verus!

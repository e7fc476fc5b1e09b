use crate::engine::data::{
    advanced, after_answer, lemma_answer_advances, lemma_override_advances, QuestionStore,
    QuestionView, Section, HINT_SCALE,
};
use crate::engine::dispatch::{DSettings, Dispatcher, QuizProgress, QuizRef};
use crate::engine::quiz::{hint_cost, hinted, lemma_hint_cost, MultipleChoice, Quiz};
use crate::engine::text::{clone_texts, same_texts};
use rand::rngs::StdRng;
use vstd::prelude::*;

verus! {

/// The settings of the program; there are none yet.
#[derive(Clone, Copy, Debug)]
pub struct QCSettings {}

impl Default for QCSettings {
    fn default() -> (settings: Self) {
        QCSettings {  }
    }
}

/// The cursor that was left at a place in the tree.
#[derive(Debug)]
pub struct Selection {
    pub path: Vec<String>,
    pub cursor: usize,
}

/// Where the user stands in the tree, and where the cursor was left at each
/// place that was visited.
#[derive(Debug)]
pub struct TreeState {
    pub path: Vec<String>,
    pub selection_history: Vec<Selection>,
}

/// The place in a history of the first record for a path, or the length of
/// the history where there is none.
pub open spec fn record_of(history: Seq<Selection>, path: Seq<Seq<char>>) -> int
    decreases history.len(),
{
    if history.len() == 0 {
        0
    } else if history.first().path.deep_view() == path {
        0
    } else {
        1 + record_of(history.drop_first(), path)
    }
}

/// The cursor that a history holds for a path: that of the first record for
/// the path, or zero where there is none.
pub open spec fn cursor_in(history: Seq<Selection>, path: Seq<Seq<char>>) -> usize {
    let i = record_of(history, path);
    if i < history.len() {
        history[i].cursor
    } else {
        0
    }
}

/// The place of the first record for a path is within the history or at its
/// end, no record before it is for the path, and the record there is.
pub proof fn lemma_record_of(history: Seq<Selection>, path: Seq<Seq<char>>)
    ensures
        0 <= record_of(history, path) <= history.len(),
        forall|j: int|
            0 <= j < record_of(history, path) ==> (#[trigger] history[j]).path.deep_view() != path,
        record_of(history, path) < history.len() ==> history[record_of(
            history,
            path,
        )].path.deep_view() == path,
    decreases history.len(),
{
    if history.len() > 0 && history.first().path.deep_view() != path {
        lemma_record_of(history.drop_first(), path);
        let rest = history.drop_first();
        assert forall|j: int| 0 <= j < record_of(history, path) implies (
        #[trigger] history[j]).path.deep_view() != path by {
            if j > 0 {
                assert(history[j] == rest[j - 1]);
            }
        }
        if record_of(history, path) < history.len() {
            assert(history[record_of(history, path)] == rest[record_of(rest, path)]);
        }
    }
}

/// The first record for a path is at place `i` if the record there is for
/// the path and none before it is.
pub proof fn lemma_record_at(history: Seq<Selection>, path: Seq<Seq<char>>, i: int)
    requires
        0 <= i <= history.len(),
        forall|j: int| 0 <= j < i ==> (#[trigger] history[j]).path.deep_view() != path,
        i < history.len() ==> history[i].path.deep_view() == path,
    ensures
        record_of(history, path) == i,
    decreases history.len(),
{
    if history.len() > 0 {
        if i == 0 {
        } else {
            assert(history[0].path.deep_view() != path);
            let rest = history.drop_first();
            assert forall|j: int| 0 <= j < i - 1 implies (#[trigger] rest[j]).path.deep_view()
                != path by {
                assert(rest[j] == history[j + 1]);
            }
            if i < history.len() {
                assert(rest[i - 1] == history[i]);
            }
            lemma_record_at(rest, path, i - 1);
        }
    }
}

impl Default for TreeState {
    fn default() -> (state: Self)
        ensures
            state.path@.len() == 0,
            state.selection_history@.len() == 0,
    {
        TreeState { path: Vec::new(), selection_history: Vec::new() }
    }
}

impl TreeState {
    /// The cursor at a place of the tree: where it was left, or zero at a
    /// place that was never visited.
    pub open spec fn cursor_at(&self, path: Seq<Seq<char>>) -> usize {
        cursor_in(self.selection_history@, path)
    }

    /// The cursor at the place where the user stands.
    pub open spec fn cursor(&self) -> usize {
        self.cursor_at(self.path.deep_view())
    }

    /// The place of the record for the present path, if there is one.
    fn find_record(&self) -> (found: Option<usize>)
        ensures
            match found {
                Some(i) => i < self.selection_history.len() && i == record_of(
                    self.selection_history@,
                    self.path.deep_view(),
                ),
                None => record_of(self.selection_history@, self.path.deep_view())
                    == self.selection_history.len(),
            },
    {
        let mut i: usize = 0;
        while i < self.selection_history.len()
            invariant
                i <= self.selection_history.len(),
                forall|j: int|
                    0 <= j < i ==> (#[trigger] self.selection_history[j]).path.deep_view()
                        != self.path.deep_view(),
            decreases self.selection_history.len() - i,
        {
            if same_texts(&self.selection_history[i].path, &self.path) {
                proof {
                    lemma_record_at(self.selection_history@, self.path.deep_view(), i as int);
                }
                return Some(i);
            }
            i += 1;
        }
        proof {
            lemma_record_at(self.selection_history@, self.path.deep_view(), i as int);
        }
        None
    }

    /// The cursor at the place where the user stands, to be moved.
    pub fn get_selected_mut(&mut self) -> (cursor: &mut usize)
        ensures
            *cursor == old(self).cursor(),
            final(self).path == old(self).path,
            final(self).cursor() == *final(cursor),
            forall|path: Seq<Seq<char>>|
                path != old(self).path.deep_view() ==> final(self).cursor_at(path) == old(
                    self,
                ).cursor_at(path),
    {
        let i = match self.find_record() {
            Some(i) => i,
            None => {
                let record = Selection { path: clone_texts(&self.path), cursor: 0 };
                self.selection_history.push(record);
                proof {
                    let before = old(self).selection_history@;
                    let after = self.selection_history@;
                    let here = self.path.deep_view();
                    lemma_record_of(before, here);
                    assert forall|j: int| 0 <= j < before.len() implies (
                    #[trigger] after[j]).path.deep_view() != here by {
                        assert(after[j] == before[j]);
                    }
                    lemma_record_at(after, here, before.len() as int);
                    assert forall|path: Seq<Seq<char>>| path != here implies cursor_in(after, path)
                        == cursor_in(before, path) by {
                        lemma_record_of(before, path);
                        let r = record_of(before, path);
                        if r < before.len() {
                            assert(after[r] == before[r]);
                            lemma_record_at(after, path, r);
                        } else {
                            lemma_record_at(after, path, after.len() as int);
                        }
                    }
                }
                self.selection_history.len() - 1
            },
        };
        let ghost before = self.selection_history@;
        let ghost here = self.path.deep_view();
        let record = &mut self.selection_history[i];
        let cursor = &mut record.cursor;
        proof {
            let after = before.update(
                i as int,
                Selection { path: before[i as int].path, cursor: *final(cursor) },
            );
            lemma_record_of(before, here);
            lemma_record_at(after, here, i as int);
            assert forall|path: Seq<Seq<char>>| path != here implies cursor_in(after, path)
                == cursor_in(before, path) by {
                lemma_record_of(before, path);
                let r = record_of(before, path);
                if r < before.len() {
                    assert(r != i);
                    assert(after[r] == before[r]);
                    lemma_record_at(after, path, r);
                } else {
                    lemma_record_at(after, path, after.len() as int);
                }
            }
        }
        cursor
    }

    /// The cursor at the place where the user stands.
    pub fn get_selected(&self) -> (cursor: usize)
        ensures
            cursor == self.cursor(),
    {
        match self.find_record() {
            Some(i) => self.selection_history[i].cursor,
            None => 0,
        }
    }
}

/// What the user can ask of the session, whatever keys it is bound to.
#[derive(Debug)]
pub enum Event {
    MoveUp,
    MoveDown,
    Descend,
    Ascend,
    /// Start a quiz on the selected section; with `true`, on the sections
    /// below it as well.
    StartQuiz(bool),
    /// The number of a choice, counted from one.
    AnswerDigit(u8),
    /// An answer in free text, for a quiz without choices.
    AnswerText(String),
    Hint,
    Override,
    Continue,
    Quit,
}

/// A question that is being asked: the quiz that asks it, and how far the
/// session had come when it was dispatched.
#[derive(Clone, Copy, Debug)]
pub struct QuestionState {
    pub quiz: QuizRef,
    pub progress: QuizProgress,
}

/// One frame of the session.
pub enum State {
    /// The user walks the tree.
    TreeView(TreeState),
    /// A quiz session; it stays below the question that it has dispatched.
    Dispatch(Dispatcher<MultipleChoice>),
    /// A question waits for its answer.
    AskQuestion(QuestionState),
    /// A question was answered: whether correctly, and what was expected.
    AnswerQuestion(QuestionState, (bool, String)),
}

impl State {
    /// If a state is marked as "transient", it's skipped over when state is being rewinded
    pub fn transient(&self) -> (transient: bool)
        ensures
            transient == (self is Dispatch),
    {
        match self {
            State::Dispatch(_) => true,
            _ => false,
        }
    }

    /// The quiz that a frame asks, if it is the frame of a question.
    pub open spec fn asks(&self) -> Option<QuizRef> {
        match self {
            State::AskQuestion(s) => Some(s.quiz),
            State::AnswerQuestion(s, _) => Some(s.quiz),
            _ => None,
        }
    }
}

/// `after` stands where `before` stands, with the cursor there at `cursor`
/// and the cursors elsewhere as they were.
pub open spec fn moved(before: TreeState, after: TreeState, cursor: usize) -> bool {
    &&& after.path.deep_view() == before.path.deep_view()
    &&& after.cursor() == cursor
    &&& forall|path: Seq<Seq<char>>|
        path != before.path.deep_view() ==> after.cursor_at(path) == before.cursor_at(path)
}

/// `after` stands at `path`, with all cursors as they were in `before`.
pub open spec fn walked(before: TreeState, after: TreeState, path: Seq<Seq<char>>) -> bool {
    &&& after.path.deep_view() == path
    &&& forall|p: Seq<Seq<char>>| after.cursor_at(p) == before.cursor_at(p)
}

/// The session: the tree of notes with its questions, and the stack of
/// frames, of which the last is the one that the user sees.
pub struct Quizcrawler {
    pub tree: Section,
    pub store: QuestionStore,
    pub settings: QCSettings,
    pub state_stack: Vec<State>,
    pub rng: StdRng,
}

impl Quizcrawler {
    /// The questions are well formed and the tree speaks of no others. The
    /// stack holds the tree view at a place that exists, above it at most a
    /// quiz session that goes with the questions and has a quiz registered,
    /// and above that at most one question, which a quiz of the session is
    /// ready to ask.
    pub open spec fn wf(&self) -> bool {
        &&& self.store.wf()
        &&& self.tree.fits(self.store@.len())
        &&& 1 <= self.state_stack.len() <= 3
        &&& self.state_stack[0] matches State::TreeView(t)
        &&& self.tree.descend(t.path.deep_view()) is Some
        &&& self.state_stack.len() >= 2 ==> {
            &&& self.state_stack[1] matches State::Dispatch(d)
            &&& d.wf()
            &&& d.tracks(self.store@)
            &&& d.quizzes.len() > 0
            &&& self.state_stack.len() == 3 ==> {
                &&& self.state_stack[2].asks() matches Some(r)
                &&& r.index < d.quizzes.len()
                &&& d.quizzes[r.index as int].ready(self.store@)
            }
        }
    }

    /// The frame that the user sees.
    pub open spec fn top(&self) -> State {
        self.state_stack[self.state_stack.len() - 1]
    }

    /// The question that waits for its answer, if one does, can take one
    /// more answer into its statistics.
    pub open spec fn has_room(&self) -> bool {
        self.top() matches State::AskQuestion(s) ==> {
            &&& self.state_stack[1] matches State::Dispatch(d)
            &&& d.quizzes[s.quiz.index as int].question matches Some(q)
            &&& self.store@[q.index as int].has_room(HINT_SCALE)
        }
    }

    /// A session on a tree, with the questions that its sections speak of
    /// and the generator that decides what chance is to decide. It starts
    /// with the view of the tree, at the top.
    pub fn new(settings: QCSettings, tree: Section, store: QuestionStore, rng: StdRng) -> (session:
        Self)
        requires
            store.wf(),
            tree.fits(store@.len()),
        ensures
            session.wf(),
            session.tree == tree,
            session.store == store,
            session.state_stack.len() == 1,
            session.state_stack[0] matches State::TreeView(t) && t.path@.len() == 0
                && t.selection_history@.len() == 0,
    {
        let mut state_stack: Vec<State> = Vec::new();
        let start = TreeState::default();
        assert(start.path.deep_view() =~= Seq::<Seq<char>>::empty());
        state_stack.push(State::TreeView(start));
        Quizcrawler { tree, store, settings, state_stack, rng }
    }

    /// Whether the question that waits for its answer, if one does, can
    /// take one more answer into its statistics.
    pub fn can_answer(&self) -> (room: bool)
        requires
            self.wf(),
        ensures
            room == self.has_room(),
    {
        let depth = self.state_stack.len();
        match &self.state_stack[depth - 1] {
            State::AskQuestion(s) => {
                match &self.state_stack[1] {
                    State::Dispatch(d) => {
                        match d.quizzes[s.quiz.index].question {
                            Some(q) => {
                                assert(self.store@[q.index as int]
                                    == self.store.questions[q.index as int]@);
                                self.store.questions[q.index].has_room(HINT_SCALE)
                            },
                            None => false,
                        }
                    },
                    _ => false,
                }
            },
            _ => true,
        }
    }

    /// Leaves what is going on: takes the top frame off, and then each
    /// session frame that comes to the top, but never the last frame. The
    /// user is back at the view of the tree.
    pub fn rewind(&mut self)
        requires
            old(self).wf(),
        ensures
            final(self).wf(),
            final(self).state_stack@ == old(self).state_stack@.take(1),
            final(self).state_stack[0] is TreeView,
            final(self).tree == old(self).tree,
            final(self).store == old(self).store,
            final(self).settings == old(self).settings,
    {
        if self.state_stack.len() > 1 {
            let _ = self.state_stack.pop();
        }
        while self.state_stack.len() > 1 && self.state_stack[self.state_stack.len() - 1].transient()
            invariant
                1 <= self.state_stack.len() <= old(self).state_stack.len(),
                self.state_stack@ == old(self).state_stack@.take(self.state_stack.len() as int),
                old(self).wf(),
                self.state_stack.len() <= 2,
                self.tree == old(self).tree,
                self.store == old(self).store,
                self.settings == old(self).settings,
            decreases self.state_stack.len(),
        {
            let _ = self.state_stack.pop();
            assert(self.state_stack@ =~= old(self).state_stack@.take(self.state_stack.len() as int));
        }
        assert(self.state_stack@ =~= old(self).state_stack@.take(1));
    }

    /// What a tick does to a session whose top frame is a quiz session `d`:
    /// either a question was dispatched, and its frame lies on top with the
    /// progress of the session, or the frames above the view of the tree are
    /// gone, because nothing is left to learn or no quiz can ask the question
    /// that was due.
    pub open spec fn ticked(
        d: Dispatcher<MultipleChoice>,
        store: Seq<QuestionView>,
        before: Seq<State>,
        after: Seq<State>,
    ) -> bool {
        ||| {
            &&& after.len() == 3
            &&& after[0] == before[0]
            &&& after[1] matches State::Dispatch(d2)
            &&& after[2] matches State::AskQuestion(s)
            &&& d2.questions == d.questions
            &&& d2.reference == d.reference
            &&& d2.pool == d.pool
            &&& d2.settings == d.settings
            &&& exists|e: int|
                #![trigger d.is_due(store, e)]
                d.dispatched(d2.quizzes@, store, e, s.quiz.index as int)
            &&& s.progress.questions == d.length()
            &&& s.progress.learned == d.learned(store)
            &&& s.progress.score == d.score_of(store)
        }
        ||| {
            &&& after == before.take(1)
            &&& d.remaining_places(store).len() == 0 || exists|e: int|
                #![trigger d.is_due(store, e)]
                d.is_due(store, e) && !d.askable(store, e)
        }
    }

    /// Does what is to be done without the user: where a quiz session is on
    /// top, it dispatches its next question, or ends if it has none. The
    /// session goes on for as long as it is driven, so the answer is `true`.
    pub fn tick(&mut self) -> (alive: bool)
        requires
            old(self).wf(),
        ensures
            alive,
            final(self).wf(),
            final(self).tree == old(self).tree,
            final(self).store == old(self).store,
            final(self).settings == old(self).settings,
            match old(self).top() {
                State::Dispatch(d) => Self::ticked(
                    d,
                    old(self).store@,
                    old(self).state_stack@,
                    final(self).state_stack@,
                ),
                _ => final(self).state_stack@ == old(self).state_stack@,
            },
    {
        let depth = self.state_stack.len();
        if !self.state_stack[depth - 1].transient() {
            return true;
        }
        match self.state_stack.pop() {
            Some(State::Dispatch(mut dispatcher)) => {
                let ghost d = dispatcher;
                match dispatcher.next(&self.store, &mut self.rng) {
                    Some(quiz) => {
                        let progress = dispatcher.progress(&self.store);
                        let state = QuestionState { quiz, progress };
                        proof {
                            let e = choose|e: int|
                                #![trigger d.is_due(self.store@, e)]
                                d.dispatched(dispatcher.quizzes@, self.store@, e, quiz.index as int);
                            assert(d.is_due(self.store@, e));
                            assert(d.remaining_places(self.store@) =~= dispatcher.remaining_places(
                                self.store@,
                            )) by {
                                d.lemma_same_session(dispatcher, self.store@);
                            }
                            d.lemma_same_session(dispatcher, self.store@);
                        }
                        self.state_stack.push(State::Dispatch(dispatcher));
                        self.state_stack.push(State::AskQuestion(state));
                        assert(Self::ticked(
                            d,
                            self.store@,
                            old(self).state_stack@,
                            self.state_stack@,
                        ));
                    },
                    None => {
                        assert(self.state_stack@ =~= old(self).state_stack@.take(1));
                    },
                }
            },
            Some(other) => {
                self.state_stack.push(other);
                assert(self.state_stack@ =~= old(self).state_stack@);
            },
            None => {},
        }
        true
    }

    /// What an event does to a session that shows the tree, the user
    /// standing at the section `node` with the cursor on child number
    /// `t.cursor()`. The cursor moves within the children of `node`; the user
    /// steps down into a child that has children of its own, and up again
    /// unless at the top; a quiz starts on the first child that bears the
    /// name of the selected one; and anything else changes nothing.
    pub open spec fn tree_step(
        t: TreeState,
        node: Section,
        store: Seq<QuestionView>,
        before: Seq<State>,
        after: Seq<State>,
        event: Event,
    ) -> bool {
        let c = t.cursor();
        let n = node.children.len();
        let path = t.path.deep_view();
        match event {
            Event::MoveUp => after.len() == 1 && (after[0] matches State::TreeView(t2) && moved(
                t,
                t2,
                if c > 0 {
                    (c - 1) as usize
                } else {
                    c
                },
            )),
            Event::MoveDown => after.len() == 1 && (after[0] matches State::TreeView(t2) && moved(
                t,
                t2,
                if c + 1 < n {
                    (c + 1) as usize
                } else {
                    c
                },
            )),
            Event::Descend => after.len() == 1 && (after[0] matches State::TreeView(t2) && walked(
                t,
                t2,
                if c < n && node.children[c as int].children.len() > 0 {
                    path.push(node.children[c as int].name@)
                } else {
                    path
                },
            )),
            Event::Ascend => after.len() == 1 && (after[0] matches State::TreeView(t2) && walked(
                t,
                t2,
                if path.len() > 0 {
                    path.drop_last()
                } else {
                    path
                },
            )),
            Event::StartQuiz(recursive) => if c < n {
                let chosen = node.children[node.child_index(node.children[c as int].name@)];
                &&& after.len() == 2
                &&& after[0] == before[0]
                &&& after[1] matches State::Dispatch(d)
                &&& d.settings == (DSettings { recursive, quiz_length: 20 })
                &&& d.questions@ == chosen.gathered(recursive)
                &&& chosen.trails(Seq::empty(), recursive).len() == d.questions.len()
                &&& forall|i: int|
                    0 <= i < d.questions.len() ==> (#[trigger] d.reference[i]).records(
                        store[d.questions[i].index as int],
                        chosen.trails(Seq::empty(), recursive)[i],
                    )
                &&& d.quizzes.len() == 1
                &&& d.quizzes[0].settings.choices == 4
                &&& d.quizzes[0].question is None
            } else {
                after == before
            },
            _ => after == before,
        }
    }

    /// Handles an event while the tree is shown.
    fn handle_tree_event(&mut self, event: Event)
        requires
            old(self).wf(),
            old(self).top() is TreeView,
        ensures
            final(self).wf(),
            final(self).tree == old(self).tree,
            final(self).store == old(self).store,
            final(self).settings == old(self).settings,
            old(self).state_stack[0] matches State::TreeView(t) && Self::tree_step(
                t,
                old(self).tree.descend(t.path.deep_view())->0,
                old(self).store@,
                old(self).state_stack@,
                final(self).state_stack@,
                event,
            ),
    {
        let mut state = match self.state_stack.pop() {
            Some(State::TreeView(state)) => state,
            Some(other) => {
                self.state_stack.push(other);
                return ;
            },
            None => {
                return ;
            },
        };
        let ghost t = state;
        let ghost path = state.path.deep_view();
        let node = match self.tree.child_at_path(&state.path) {
            Some(node) => node,
            None => {
                self.state_stack.push(State::TreeView(state));
                return ;
            },
        };
        let limit = node.children.len();
        let current = state.get_selected();
        match event {
            Event::MoveUp => {
                if current > 0 {
                    let selector = state.get_selected_mut();
                    *selector -= 1;
                }
                self.state_stack.push(State::TreeView(state));
            },
            Event::MoveDown => {
                if current < limit && current + 1 < limit {
                    let selector = state.get_selected_mut();
                    *selector += 1;
                }
                self.state_stack.push(State::TreeView(state));
            },
            Event::Descend => {
                if current < limit && node.children[current].is_parent() {
                    let name = node.children[current].name.clone();
                    proof {
                        self.tree.lemma_descend_push(path, name@);
                        Section::lemma_first_named(node.children@, name@);
                        let i = node.child_index(name@);
                        assert(i <= current) by {
                            if i > current {
                                assert(node.children[current as int].name@ != name@);
                            }
                        }
                        assert(seq![name@].drop_first() =~= Seq::<Seq<char>>::empty());
                        assert(node.descend(seq![name@]) == node.children[i].descend(
                            Seq::<Seq<char>>::empty(),
                        ));
                    }
                    state.path.push(name);
                    assert(state.path.deep_view() =~= path.push(name@));
                }
                self.state_stack.push(State::TreeView(state));
            },
            Event::Ascend => {
                if state.path.len() > 0 {
                    proof {
                        self.tree.lemma_descend_pop(path);
                    }
                    let _ = state.path.pop();
                    assert(state.path.deep_view() =~= path.drop_last());
                }
                self.state_stack.push(State::TreeView(state));
            },
            Event::StartQuiz(recursive) => {
                self.state_stack.push(State::TreeView(state));
                assert(self.state_stack@ =~= old(self).state_stack@);
                if current < limit {
                    proof {
                        Section::lemma_first_named(
                            node.children@,
                            node.children[current as int].name@,
                        );
                        let i = node.child_index(node.children[current as int].name@);
                        if i > current {
                            assert(node.children[current as int].name@
                                != node.children[current as int].name@);
                        }
                        self.tree.lemma_descend_fits(path, self.store@.len());
                    }
                    match node.find_child(node.children[current].name.as_str()) {
                        Some(place) => {
                            let section = &node.children[place];
                            let settings = DSettings { recursive, quiz_length: 20 };
                            let mut dispatcher = Dispatcher::new(settings, section, &self.store);
                            dispatcher.register_quiz(MultipleChoice::default());
                            self.state_stack.push(State::Dispatch(dispatcher));
                        },
                        None => {},
                    }
                }
            },
            _ => {
                self.state_stack.push(State::TreeView(state));
                assert(self.state_stack@ =~= old(self).state_stack@);
            },
        }
    }

    /// What an event does to a session that asks a question, `d` being the
    /// quiz session and `s` the frame of the question. A hint goes to the
    /// quiz. The number of a choice is an answer: the question records it, and
    /// the frame becomes that of an answered question; a number that names no
    /// choice changes nothing. Quitting leads back to the tree. Anything else
    /// changes nothing; free text would be for a quiz without choices.
    pub open spec fn ask_step(
        d: Dispatcher<MultipleChoice>,
        s: QuestionState,
        store_before: Seq<QuestionView>,
        store_after: Seq<QuestionView>,
        before: Seq<State>,
        after: Seq<State>,
        event: Event,
    ) -> bool {
        let k = s.quiz.index as int;
        let quiz = d.quizzes[k];
        let q = quiz.question->0.index as int;
        match event {
            Event::Hint => {
                &&& store_after == store_before
                &&& after.len() == 3
                &&& after[0] == before[0]
                &&& after[2] == before[2]
                &&& after[1] matches State::Dispatch(d2)
                &&& d.same_session(d2)
                &&& d2.quizzes@ == d.quizzes@.update(k, d2.quizzes[k])
                &&& hinted(quiz, d2.quizzes[k], store_before[q].expected())
            },
            Event::AnswerDigit(n) => if quiz.names_choice(n as usize) {
                &&& after_answer(
                    store_before,
                    store_after,
                    q,
                    quiz.choices[n - 1]@,
                    hint_cost(quiz.choices.len() as nat, quiz.offered as nat),
                )
                &&& after.len() == 3
                &&& after[0] == before[0]
                &&& after[1] matches State::Dispatch(d2)
                &&& d.same_session(d2)
                &&& d2.quizzes@ == d.quizzes@
                &&& after[2] matches State::AnswerQuestion(s2, o)
                &&& s2 == s
                &&& o.0 == store_before[q].accepts(quiz.choices[n - 1]@)
                &&& o.1@ == store_before[q].expected()
            } else {
                after == before && store_after == store_before
            },
            Event::Quit => after == before.take(1) && store_after == store_before,
            _ => after == before && store_after == store_before,
        }
    }

    /// What an event does to a session that shows an answered question, `d`
    /// being the quiz session, `s` the frame of the question, and `correct`
    /// and `expected` the outcome. An answer that was not correct can be
    /// marked correct, once: the question records it and the outcome becomes
    /// correct. Going on leads back to the quiz session, quitting to the tree.
    /// Anything else changes nothing.
    pub open spec fn answer_step(
        d: Dispatcher<MultipleChoice>,
        s: QuestionState,
        correct: bool,
        expected: Seq<char>,
        store_before: Seq<QuestionView>,
        store_after: Seq<QuestionView>,
        before: Seq<State>,
        after: Seq<State>,
        event: Event,
    ) -> bool {
        let k = s.quiz.index as int;
        let quiz = d.quizzes[k];
        let q = quiz.question->0.index as int;
        match event {
            Event::Override => if !correct {
                &&& store_after == store_before.update(q, store_before[q].overridden())
                &&& after.len() == 3
                &&& after[0] == before[0]
                &&& after[1] matches State::Dispatch(d2)
                &&& d.same_session(d2)
                &&& d2.quizzes@ == d.quizzes@
                &&& after[2] matches State::AnswerQuestion(s2, o)
                &&& s2 == s
                &&& o.0
                &&& o.1@ == expected
            } else {
                after == before && store_after == store_before
            },
            Event::Continue => after == before.take(2) && store_after == store_before,
            Event::Quit => after == before.take(1) && store_after == store_before,
            _ => after == before && store_after == store_before,
        }
    }

    /// Hands a hint to the quiz that asks the question on top.
    fn give_hint(&mut self)
        requires
            old(self).wf(),
            old(self).top() is AskQuestion,
        ensures
            final(self).wf(),
            final(self).tree == old(self).tree,
            final(self).store == old(self).store,
            final(self).settings == old(self).settings,
            old(self).state_stack[1] matches State::Dispatch(d) && old(
                self,
            ).top() matches State::AskQuestion(s) && Self::ask_step(
                d,
                s,
                old(self).store@,
                final(self).store@,
                old(self).state_stack@,
                final(self).state_stack@,
                Event::Hint,
            ),
    {
        let top = self.state_stack.pop();
        let below = self.state_stack.pop();
        match (below, top) {
            (Some(State::Dispatch(mut dispatcher)), Some(State::AskQuestion(state))) => {
                let ghost d = dispatcher;
                let k = state.quiz.index;
                let mut quiz = dispatcher.quizzes.remove(k);
                quiz.get_hint(&self.store, &mut self.rng);
                dispatcher.quizzes.insert(k, quiz);
                assert(dispatcher.quizzes@ =~= d.quizzes@.update(k as int, quiz));
                self.state_stack.push(State::Dispatch(dispatcher));
                self.state_stack.push(State::AskQuestion(state));
            },
            _ => {},
        }
    }

    /// Hands the number of a choice to the quiz that asks the question on
    /// top.
    fn give_answer(&mut self, n: u8)
        requires
            old(self).wf(),
            old(self).has_room(),
            old(self).top() is AskQuestion,
        ensures
            final(self).wf(),
            final(self).tree == old(self).tree,
            final(self).settings == old(self).settings,
            old(self).state_stack[1] matches State::Dispatch(d) && old(
                self,
            ).top() matches State::AskQuestion(s) && Self::ask_step(
                d,
                s,
                old(self).store@,
                final(self).store@,
                old(self).state_stack@,
                final(self).state_stack@,
                Event::AnswerDigit(n),
            ),
    {
        let ready = match (&self.state_stack[1], &self.state_stack[2]) {
            (State::Dispatch(dispatcher), State::AskQuestion(state)) => {
                let quiz = &dispatcher.quizzes[state.quiz.index];
                0 < n && n as usize <= quiz.choices.len()
            },
            _ => false,
        };
        if !ready {
            return ;
        }
        let top = self.state_stack.pop();
        let below = self.state_stack.pop();
        match (below, top) {
            (Some(State::Dispatch(mut dispatcher)), Some(State::AskQuestion(state))) => {
                let ghost d = dispatcher;
                let ghost before = self.store@;
                let k = state.quiz.index;
                let mut quiz = dispatcher.quizzes.remove(k);
                let outcome = quiz.answer_choice(n as usize, &mut self.store);
                dispatcher.quizzes.insert(k, quiz);
                assert(dispatcher.quizzes@ =~= d.quizzes@);
                proof {
                    let q = quiz.question->0.index as int;
                    d.lemma_tracks_on(before, self.store@, q);
                }
                self.state_stack.push(State::Dispatch(dispatcher));
                match outcome {
                    Some(result) => {
                        self.state_stack.push(State::AnswerQuestion(state, result));
                    },
                    None => {
                        self.state_stack.push(State::AskQuestion(state));
                    },
                }
            },
            _ => {},
        }
    }

    /// Hands an answer in free text to the quiz that asks the question on
    /// top, if that quiz offers no choices. A quiz that is ready to ask a
    /// question in multiple choice always offers some, so for now free text
    /// changes nothing.
    fn give_text(&mut self, text: String)
        requires
            old(self).wf(),
            old(self).has_room(),
            old(self).top() is AskQuestion,
        ensures
            final(self).wf(),
            final(self).tree == old(self).tree,
            final(self).settings == old(self).settings,
            final(self).store@ == old(self).store@,
            final(self).state_stack@ == old(self).state_stack@,
    {
        let free = match (&self.state_stack[1], &self.state_stack[2]) {
            (State::Dispatch(dispatcher), State::AskQuestion(state)) => {
                let quiz = &dispatcher.quizzes[state.quiz.index];
                proof {
                    let q = quiz.question->0.index as int;
                    let answer = self.store@[q].expected();
                    let i = choose|i: int|
                        0 <= i < quiz.choices.deep_view().len() && quiz.choices.deep_view()[i]
                            == answer;
                    assert(quiz.choices.len() > 0);
                }
                quiz.get_choices().len() == 0
            },
            _ => false,
        };
        if !free {
            return ;
        }
        let top = self.state_stack.pop();
        let below = self.state_stack.pop();
        match (below, top) {
            (Some(State::Dispatch(mut dispatcher)), Some(State::AskQuestion(state))) => {
                let k = state.quiz.index;
                let mut quiz = dispatcher.quizzes.remove(k);
                let outcome = quiz.answer(text.as_str(), &mut self.store);
                dispatcher.quizzes.insert(k, quiz);
                self.state_stack.push(State::Dispatch(dispatcher));
                match outcome {
                    Some(result) => {
                        self.state_stack.push(State::AnswerQuestion(state, result));
                    },
                    None => {
                        self.state_stack.push(State::AskQuestion(state));
                    },
                }
            },
            _ => {},
        }
    }

    /// Marks the answer on top as correct, unless it is.
    fn override_answer(&mut self)
        requires
            old(self).wf(),
            old(self).top() is AnswerQuestion,
        ensures
            final(self).wf(),
            final(self).tree == old(self).tree,
            final(self).settings == old(self).settings,
            old(self).state_stack[1] matches State::Dispatch(d) && old(
                self,
            ).top() matches State::AnswerQuestion(s, o) && Self::answer_step(
                d,
                s,
                o.0,
                o.1@,
                old(self).store@,
                final(self).store@,
                old(self).state_stack@,
                final(self).state_stack@,
                Event::Override,
            ),
    {
        let wrong = match &self.state_stack[2] {
            State::AnswerQuestion(_, outcome) => !outcome.0,
            _ => false,
        };
        if !wrong {
            return ;
        }
        let top = self.state_stack.pop();
        let below = self.state_stack.pop();
        match (below, top) {
            (
                Some(State::Dispatch(mut dispatcher)),
                Some(State::AnswerQuestion(state, outcome)),
            ) => {
                let ghost d = dispatcher;
                let ghost before = self.store@;
                let k = state.quiz.index;
                let mut quiz = dispatcher.quizzes.remove(k);
                quiz.i_was_right(&mut self.store);
                dispatcher.quizzes.insert(k, quiz);
                assert(dispatcher.quizzes@ =~= d.quizzes@);
                proof {
                    let q = quiz.question->0.index as int;
                    assert(before[q].wf());
                    d.lemma_tracks_on(before, self.store@, q);
                }
                self.state_stack.push(State::Dispatch(dispatcher));
                self.state_stack.push(State::AnswerQuestion(state, (true, outcome.1)));
            },
            _ => {},
        }
    }

    /// What an event does to a session, by the frame on top: see
    /// `tree_step`, `ask_step` and `answer_step`. A quiz session on top waits
    /// for a tick and takes no event.
    pub open spec fn stepped(&self, after: Self, event: Event) -> bool {
        match self.top() {
            State::TreeView(t) => {
                &&& after.store@ == self.store@
                &&& Self::tree_step(
                    t,
                    self.tree.descend(t.path.deep_view())->0,
                    self.store@,
                    self.state_stack@,
                    after.state_stack@,
                    event,
                )
            },
            State::Dispatch(_) => after.state_stack@ == self.state_stack@ && after.store@
                == self.store@,
            State::AskQuestion(s) => self.state_stack[1] matches State::Dispatch(d)
                && Self::ask_step(
                d,
                s,
                self.store@,
                after.store@,
                self.state_stack@,
                after.state_stack@,
                event,
            ),
            State::AnswerQuestion(s, o) => self.state_stack[1] matches State::Dispatch(d)
                && Self::answer_step(
                d,
                s,
                o.0,
                o.1@,
                self.store@,
                after.store@,
                self.state_stack@,
                after.state_stack@,
                event,
            ),
        }
    }

    /// No event lowers a statistic of a question, so no event lowers the
    /// number of questions that a quiz session counts as learned, which never
    /// exceeds the number of questions that the session asks.
    pub proof fn lemma_progress_never_falls(&self, after: Self, event: Event)
        requires
            self.wf(),
            self.has_room(),
            self.stepped(after, event),
        ensures
            advanced(self.store@, after.store@),
            self.state_stack.len() >= 2 ==> (self.state_stack[1] matches State::Dispatch(d) && 0
                <= d.learned(self.store@) <= d.learned(after.store@) <= d.length()),
    {
        match self.top() {
            State::AskQuestion(s) => {
                let d = self.state_stack[1]->Dispatch_0;
                let quiz = d.quizzes[s.quiz.index as int];
                let q = quiz.question->0.index as int;
                match event {
                    Event::AnswerDigit(n) => {
                        if quiz.names_choice(n as usize) {
                            let cost = hint_cost(quiz.choices.len() as nat, quiz.offered as nat);
                            lemma_hint_cost(quiz.choices.len() as nat, quiz.offered as nat);
                            lemma_answer_advances(
                                self.store@,
                                after.store@,
                                q,
                                quiz.choices[n - 1]@,
                                cost,
                            );
                        }
                    },
                    _ => {},
                }
            },
            State::AnswerQuestion(s, o) => {
                let d = self.state_stack[1]->Dispatch_0;
                let quiz = d.quizzes[s.quiz.index as int];
                let q = quiz.question->0.index as int;
                lemma_override_advances(self.store@, q);
            },
            _ => {},
        }
        if self.state_stack.len() >= 2 {
            let d = self.state_stack[1]->Dispatch_0;
            d.lemma_learned_rises(self.store@, after.store@);
        }
    }

    /// Handles what the user asks for. An event that means nothing where
    /// the user stands changes nothing.
    pub fn handle_event(&mut self, event: Event)
        requires
            old(self).wf(),
            old(self).has_room(),
        ensures
            final(self).wf(),
            final(self).tree == old(self).tree,
            final(self).settings == old(self).settings,
            old(self).stepped(*final(self), event),
    {
        let depth = self.state_stack.len();
        match &self.state_stack[depth - 1] {
            State::TreeView(_) => {
                match event {
                    Event::Quit => self.rewind(),
                    _ => self.handle_tree_event(event),
                }
                proof {
                    assert(old(self).state_stack@.take(1) =~= old(self).state_stack@);
                }
            },
            State::Dispatch(_) => {},
            State::AskQuestion(_) => {
                match event {
                    Event::Quit => self.rewind(),
                    Event::Hint => self.give_hint(),
                    Event::AnswerDigit(n) => self.give_answer(n),
                    Event::AnswerText(text) => self.give_text(text),
                    _ => {},
                }
            },
            State::AnswerQuestion(_, _) => {
                match event {
                    Event::Quit => self.rewind(),
                    Event::Override => self.override_answer(),
                    Event::Continue => {
                        let _ = self.state_stack.pop();
                        assert(self.state_stack@ =~= old(self).state_stack@.take(2));
                    },
                    _ => {},
                }
            },
        }
    }
}

/// The keys that the session knows.
#[derive(Clone, Copy, Debug)]
pub enum KeyCode {
    Char(char),
    Up,
    Down,
    Left,
    Right,
    Other,
}

/// A key that was pressed, alone or with the control key.
#[derive(Clone, Copy, Debug)]
pub struct KeyPress {
    pub code: KeyCode,
    pub control: bool,
}

/// What a key means where the user stands. In the tree the arrows move,
/// `q` quits and the space bar starts a quiz, with the control key on the
/// sections below as well. Where a question waits, a digit is the number of a
/// choice, `h` asks for a hint and `q` quits. Where a question was answered,
/// `o` marks the answer correct, the space bar goes on and `q` quits.
pub open spec fn key_meaning(top: State, key: KeyPress) -> Option<Event> {
    match top {
        State::TreeView(_) => match key.code {
            KeyCode::Char(c) => if c == 'q' {
                Some(Event::Quit)
            } else if c == ' ' {
                Some(Event::StartQuiz(key.control))
            } else {
                None
            },
            KeyCode::Up => Some(Event::MoveUp),
            KeyCode::Down => Some(Event::MoveDown),
            KeyCode::Right => Some(Event::Descend),
            KeyCode::Left => Some(Event::Ascend),
            KeyCode::Other => None,
        },
        State::Dispatch(_) => None,
        State::AskQuestion(_) => match key.code {
            KeyCode::Char(c) => if c == 'q' {
                Some(Event::Quit)
            } else if c == 'h' {
                Some(Event::Hint)
            } else if '0' <= c <= '9' {
                Some(Event::AnswerDigit((c as u32 - 48) as u8))
            } else {
                None
            },
            _ => None,
        },
        State::AnswerQuestion(_, _) => match key.code {
            KeyCode::Char(c) => if c == 'q' {
                Some(Event::Quit)
            } else if c == 'o' {
                Some(Event::Override)
            } else if c == ' ' {
                Some(Event::Continue)
            } else {
                None
            },
            _ => None,
        },
    }
}

impl Quizcrawler {
    /// What a key means in the frame on top.
    pub fn read_key(&self, key: KeyPress) -> (event: Option<Event>)
        requires
            self.state_stack.len() > 0,
        ensures
            event == key_meaning(self.top(), key),
    {
        let depth = self.state_stack.len();
        match &self.state_stack[depth - 1] {
            State::TreeView(_) => match key.code {
                KeyCode::Char(c) => if c == 'q' {
                    Some(Event::Quit)
                } else if c == ' ' {
                    Some(Event::StartQuiz(key.control))
                } else {
                    None
                },
                KeyCode::Up => Some(Event::MoveUp),
                KeyCode::Down => Some(Event::MoveDown),
                KeyCode::Right => Some(Event::Descend),
                KeyCode::Left => Some(Event::Ascend),
                KeyCode::Other => None,
            },
            State::Dispatch(_) => None,
            State::AskQuestion(_) => match key.code {
                KeyCode::Char(c) => if c == 'q' {
                    Some(Event::Quit)
                } else if c == 'h' {
                    Some(Event::Hint)
                } else if '0' <= c && c <= '9' {
                    Some(Event::AnswerDigit((c as u32 - 48) as u8))
                } else {
                    None
                },
                _ => None,
            },
            State::AnswerQuestion(_, _) => match key.code {
                KeyCode::Char(c) => if c == 'q' {
                    Some(Event::Quit)
                } else if c == 'o' {
                    Some(Event::Override)
                } else if c == ' ' {
                    Some(Event::Continue)
                } else {
                    None
                },
                _ => None,
            },
        }
    }

    /// Handles a key: the event that it means where the user stands, or
    /// nothing where it means nothing.
    pub fn handle_key(&mut self, key: KeyPress)
        requires
            old(self).wf(),
            old(self).has_room(),
        ensures
            final(self).wf(),
            final(self).tree == old(self).tree,
            final(self).settings == old(self).settings,
            match key_meaning(old(self).top(), key) {
                Some(event) => old(self).stepped(*final(self), event),
                None => final(self).state_stack@ == old(self).state_stack@ && final(self).store@
                    == old(self).store@,
            },
    {
        match self.read_key(key) {
            Some(event) => self.handle_event(event),
            None => {},
        }
    }
}

} // verus!

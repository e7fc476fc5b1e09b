use quizcrawler::console::data::{
    Event, KeyCode, KeyPress, QCSettings, Quizcrawler, State, TreeState,
};
use quizcrawler::engine::data::{QuestionRef, QuestionStore, Section, Term};
use quizcrawler::engine::quiz::Quiz;
use rand::rngs::StdRng;
use rand::SeedableRng;

fn cards(store: &mut QuestionStore, prefix: &str, count: usize) -> Vec<QuestionRef> {
    (0..count)
        .map(|i| {
            store.insert(Term::new(
                format!("{} term {}", prefix, i),
                format!("{} definition {}", prefix, i),
            ))
        })
        .collect()
}

fn crawler(seed: u64) -> Quizcrawler {
    let mut store = QuestionStore::new();
    let verbs = Section::new("Verbs".to_string(), Vec::new(), cards(&mut store, "verb", 3));
    let nouns = Section::new("Nouns".to_string(), Vec::new(), cards(&mut store, "noun", 5));
    let german = Section::new("German".to_string(), vec![verbs, nouns], Vec::new());
    let empty = Section::new("Empty".to_string(), Vec::new(), Vec::new());
    let maths = Section::new("Maths".to_string(), Vec::new(), cards(&mut store, "sum", 2));
    let root = Section::new("notes.org".to_string(), vec![german, empty, maths], Vec::new());
    Quizcrawler::new(QCSettings::default(), root, store, StdRng::seed_from_u64(seed))
}

fn tree(session: &Quizcrawler) -> &TreeState {
    match &session.state_stack[0] {
        State::TreeView(state) => state,
        _ => panic!("the bottom frame is not the tree"),
    }
}

fn frames(session: &Quizcrawler) -> Vec<&'static str> {
    session
        .state_stack
        .iter()
        .map(|frame| match frame {
            State::TreeView(_) => "tree",
            State::Dispatch(_) => "dispatch",
            State::AskQuestion(_) => "ask",
            State::AnswerQuestion(_, _) => "answer",
        })
        .collect()
}

fn choice(session: &Quizcrawler, right: bool) -> u8 {
    let quiz = match (&session.state_stack[1], &session.state_stack[2]) {
        (State::Dispatch(dispatcher), State::AskQuestion(state)) => {
            &dispatcher.quizzes[state.quiz.index]
        }
        _ => panic!("no question is asked"),
    };
    let answer = session.store.get(quiz.question.unwrap()).unwrap().peek();
    let place = quiz
        .get_choices()
        .iter()
        .position(|choice| (choice == answer) == right)
        .unwrap();
    place as u8 + 1
}

fn choices(session: &Quizcrawler) -> usize {
    match (&session.state_stack[1], &session.state_stack[2]) {
        (State::Dispatch(dispatcher), State::AskQuestion(state)) => {
            dispatcher.quizzes[state.quiz.index].get_choices().len()
        }
        _ => panic!("no question is asked"),
    }
}

#[test]
fn a_session_starts_at_the_top_of_the_tree() {
    let session = crawler(1);
    assert_eq!(frames(&session), vec!["tree"]);
    assert!(tree(&session).path.is_empty());
    assert_eq!(tree(&session).get_selected(), 0);
    assert!(session.can_answer());
}

#[test]
fn the_cursor_stays_among_the_children() {
    let mut session = crawler(1);
    session.handle_event(Event::MoveUp);
    assert_eq!(tree(&session).get_selected(), 0);
    session.handle_event(Event::MoveDown);
    assert_eq!(tree(&session).get_selected(), 1);
    session.handle_event(Event::MoveDown);
    session.handle_event(Event::MoveDown);
    session.handle_event(Event::MoveDown);
    assert_eq!(tree(&session).get_selected(), 2);
    session.handle_event(Event::MoveUp);
    assert_eq!(tree(&session).get_selected(), 1);
    assert_eq!(frames(&session), vec!["tree"]);
}

#[test]
fn the_user_steps_into_sections_that_have_children() {
    let mut session = crawler(1);
    session.handle_event(Event::MoveDown);
    session.handle_event(Event::Descend);
    assert!(tree(&session).path.is_empty());
    session.handle_event(Event::MoveUp);
    session.handle_event(Event::Descend);
    assert_eq!(tree(&session).path, vec!["German".to_string()]);
    assert_eq!(tree(&session).get_selected(), 0);
    session.handle_event(Event::MoveDown);
    session.handle_event(Event::MoveDown);
    assert_eq!(tree(&session).get_selected(), 1);
    session.handle_event(Event::Descend);
    assert_eq!(tree(&session).path, vec!["German".to_string()]);
    session.handle_event(Event::Ascend);
    assert!(tree(&session).path.is_empty());
    assert_eq!(tree(&session).get_selected(), 0);
    session.handle_event(Event::Ascend);
    assert!(tree(&session).path.is_empty());
    session.handle_event(Event::Descend);
    assert_eq!(tree(&session).get_selected(), 1);
}

#[test]
fn events_that_mean_nothing_change_nothing() {
    let mut session = crawler(1);
    for event in [
        Event::Hint,
        Event::Override,
        Event::Continue,
        Event::AnswerDigit(1),
        Event::AnswerText("verb definition 0".to_string()),
        Event::Quit,
    ] {
        session.handle_event(event);
        assert_eq!(frames(&session), vec!["tree"]);
        assert!(tree(&session).path.is_empty());
    }
    assert!(session.tick());
    assert_eq!(frames(&session), vec!["tree"]);
}

#[test]
fn a_quiz_runs_from_start_to_end() {
    let mut session = crawler(21);
    session.handle_event(Event::MoveDown);
    session.handle_event(Event::MoveDown);
    session.handle_event(Event::StartQuiz(false));
    assert_eq!(frames(&session), vec!["tree", "dispatch"]);
    session.handle_event(Event::MoveDown);
    session.handle_event(Event::Quit);
    assert_eq!(frames(&session), vec!["tree", "dispatch"]);
    for round in 0..2 {
        assert!(session.tick());
        assert_eq!(frames(&session), vec!["tree", "dispatch", "ask"]);
        match &session.state_stack[2] {
            State::AskQuestion(state) => {
                assert_eq!(state.progress.questions, 2);
                assert_eq!(state.progress.learned, round);
            }
            _ => unreachable!(),
        }
        assert_eq!(choices(&session), 2);
        assert!(session.tick());
        assert_eq!(frames(&session), vec!["tree", "dispatch", "ask"]);
        session.handle_event(Event::AnswerDigit(0));
        session.handle_event(Event::AnswerDigit(3));
        session.handle_event(Event::AnswerText("1".to_string()));
        session.handle_event(Event::Continue);
        assert_eq!(frames(&session), vec!["tree", "dispatch", "ask"]);
        let n = choice(&session, true);
        session.handle_event(Event::AnswerDigit(n));
        assert_eq!(frames(&session), vec!["tree", "dispatch", "answer"]);
        match &session.state_stack[2] {
            State::AnswerQuestion(_, outcome) => {
                assert!(outcome.0);
                assert!(outcome.1.starts_with("sum definition "));
            }
            _ => unreachable!(),
        }
        session.handle_event(Event::Hint);
        session.handle_event(Event::AnswerDigit(1));
        assert_eq!(frames(&session), vec!["tree", "dispatch", "answer"]);
        session.handle_event(Event::Continue);
        assert_eq!(frames(&session), vec!["tree", "dispatch"]);
    }
    assert!(session.tick());
    assert_eq!(frames(&session), vec!["tree"]);
    assert_eq!(tree(&session).get_selected(), 2);
    for question in &session.store.questions[8..] {
        assert_eq!((question.seen, question.correct, question.mastery), (1, 1, 1));
    }
    for question in &session.store.questions[..8] {
        assert_eq!(question.seen, 0);
    }
}

#[test]
fn a_quiz_on_a_section_can_take_in_the_sections_below() {
    let mut session = crawler(22);
    session.handle_event(Event::StartQuiz(false));
    assert_eq!(frames(&session), vec!["tree", "dispatch"]);
    assert!(session.tick());
    assert_eq!(frames(&session), vec!["tree"]);
    session.handle_event(Event::StartQuiz(true));
    match &session.state_stack[1] {
        State::Dispatch(dispatcher) => {
            let questions: Vec<usize> = dispatcher.questions.iter().map(|r| r.index).collect();
            assert_eq!(questions, vec![0, 1, 2, 3, 4, 5, 6, 7]);
            assert!(dispatcher.settings.recursive);
            assert_eq!(dispatcher.settings.quiz_length, 20);
            assert_eq!(
                dispatcher.reference[3].path,
                vec!["German".to_string(), "Nouns".to_string()]
            );
        }
        _ => unreachable!(),
    }
    assert!(session.tick());
    assert_eq!(frames(&session), vec!["tree", "dispatch", "ask"]);
    assert_eq!(choices(&session), 4);
}

#[test]
fn a_quiz_on_a_section_without_questions_ends_at_once() {
    let mut session = crawler(23);
    session.handle_event(Event::MoveDown);
    session.handle_event(Event::StartQuiz(true));
    assert_eq!(frames(&session), vec!["tree", "dispatch"]);
    assert!(session.tick());
    assert_eq!(frames(&session), vec!["tree"]);
}

#[test]
fn a_wrong_answer_can_be_overridden_once() {
    let mut session = crawler(24);
    session.handle_event(Event::StartQuiz(true));
    session.tick();
    let n = choice(&session, false);
    session.handle_event(Event::AnswerDigit(n));
    assert_eq!(frames(&session), vec!["tree", "dispatch", "answer"]);
    let asked = match (&session.state_stack[1], &session.state_stack[2]) {
        (State::Dispatch(dispatcher), State::AnswerQuestion(state, outcome)) => {
            assert!(!outcome.0);
            dispatcher.quizzes[state.quiz.index].question.unwrap()
        }
        _ => unreachable!(),
    };
    {
        let question = session.store.get(asked).unwrap();
        assert_eq!((question.seen, question.correct, question.mastery), (1, 0, 0));
    }
    session.handle_event(Event::Override);
    match &session.state_stack[2] {
        State::AnswerQuestion(_, outcome) => assert!(outcome.0),
        _ => unreachable!(),
    }
    {
        let question = session.store.get(asked).unwrap();
        assert_eq!((question.seen, question.correct, question.mastery), (1, 1, 2));
    }
    session.handle_event(Event::Override);
    {
        let question = session.store.get(asked).unwrap();
        assert_eq!((question.seen, question.correct, question.mastery), (1, 1, 2));
    }
    assert_eq!(frames(&session), vec!["tree", "dispatch", "answer"]);
}

#[test]
fn a_right_answer_cannot_be_overridden() {
    let mut session = crawler(25);
    session.handle_event(Event::StartQuiz(true));
    session.tick();
    let n = choice(&session, true);
    session.handle_event(Event::AnswerDigit(n));
    session.handle_event(Event::Override);
    let answered: Vec<(usize, usize, u8)> = session
        .store
        .questions
        .iter()
        .filter(|question| question.seen > 0)
        .map(|question| (question.seen, question.correct, question.mastery))
        .collect();
    assert_eq!(answered, vec![(1, 1, 1)]);
}

#[test]
fn a_hint_takes_a_choice_away() {
    let mut session = crawler(26);
    session.handle_event(Event::StartQuiz(true));
    session.tick();
    assert_eq!(choices(&session), 4);
    session.handle_event(Event::Hint);
    assert_eq!(choices(&session), 3);
    session.handle_event(Event::Hint);
    session.handle_event(Event::Hint);
    assert_eq!(choices(&session), 2);
    let n = choice(&session, true);
    session.handle_event(Event::AnswerDigit(n));
    let hints: Vec<u64> = session
        .store
        .questions
        .iter()
        .filter(|question| question.seen > 0)
        .map(|question| question.hints)
        .collect();
    assert_eq!(hints, vec![500_000]);
}

#[test]
fn rewind_leads_back_to_the_tree_from_any_depth() {
    let mut session = crawler(27);
    session.rewind();
    assert_eq!(frames(&session), vec!["tree"]);
    session.handle_event(Event::StartQuiz(true));
    assert_eq!(frames(&session), vec!["tree", "dispatch"]);
    session.rewind();
    assert_eq!(frames(&session), vec!["tree"]);
    session.handle_event(Event::StartQuiz(true));
    session.tick();
    assert_eq!(frames(&session), vec!["tree", "dispatch", "ask"]);
    session.handle_event(Event::Quit);
    assert_eq!(frames(&session), vec!["tree"]);
    session.handle_event(Event::StartQuiz(true));
    session.tick();
    let n = choice(&session, false);
    session.handle_event(Event::AnswerDigit(n));
    assert_eq!(frames(&session), vec!["tree", "dispatch", "answer"]);
    session.handle_event(Event::Quit);
    assert_eq!(frames(&session), vec!["tree"]);
    session.handle_event(Event::Quit);
    assert_eq!(frames(&session), vec!["tree"]);
    assert!(session.tick());
}

#[test]
fn frames_of_a_session_are_transient() {
    let mut session = crawler(28);
    assert!(!session.state_stack[0].transient());
    session.handle_event(Event::StartQuiz(true));
    assert!(session.state_stack[1].transient());
    session.tick();
    assert!(!session.state_stack[2].transient());
}

fn key(code: KeyCode) -> KeyPress {
    KeyPress {
        code,
        control: false,
    }
}

#[test]
fn keys_mean_what_the_frame_says() {
    let mut session = crawler(29);
    session.handle_key(key(KeyCode::Down));
    assert_eq!(tree(&session).get_selected(), 1);
    session.handle_key(key(KeyCode::Up));
    assert_eq!(tree(&session).get_selected(), 0);
    session.handle_key(key(KeyCode::Right));
    assert_eq!(tree(&session).path, vec!["German".to_string()]);
    session.handle_key(key(KeyCode::Left));
    assert!(tree(&session).path.is_empty());
    session.handle_key(key(KeyCode::Char('h')));
    session.handle_key(key(KeyCode::Char('1')));
    session.handle_key(key(KeyCode::Other));
    assert_eq!(frames(&session), vec!["tree"]);
    session.handle_key(KeyPress {
        code: KeyCode::Char(' '),
        control: true,
    });
    match &session.state_stack[1] {
        State::Dispatch(dispatcher) => assert!(dispatcher.settings.recursive),
        _ => unreachable!(),
    }
    session.handle_key(key(KeyCode::Char('q')));
    assert_eq!(frames(&session), vec!["tree", "dispatch"]);
    session.tick();
    session.handle_key(key(KeyCode::Char(' ')));
    session.handle_key(key(KeyCode::Char('o')));
    session.handle_key(key(KeyCode::Char('0')));
    session.handle_key(key(KeyCode::Char('9')));
    session.handle_key(key(KeyCode::Char('x')));
    session.handle_key(key(KeyCode::Up));
    assert_eq!(frames(&session), vec!["tree", "dispatch", "ask"]);
    session.handle_key(key(KeyCode::Char('h')));
    assert_eq!(choices(&session), 3);
    let n = choice(&session, false);
    session.handle_key(key(KeyCode::Char((b'0' + n) as char)));
    assert_eq!(frames(&session), vec!["tree", "dispatch", "answer"]);
    session.handle_key(key(KeyCode::Char('h')));
    session.handle_key(key(KeyCode::Char('1')));
    session.handle_key(key(KeyCode::Char('o')));
    match &session.state_stack[2] {
        State::AnswerQuestion(_, outcome) => assert!(outcome.0),
        _ => unreachable!(),
    }
    session.handle_key(key(KeyCode::Char(' ')));
    assert_eq!(frames(&session), vec!["tree", "dispatch"]);
    session.tick();
    session.handle_key(key(KeyCode::Char('q')));
    assert_eq!(frames(&session), vec!["tree"]);
}

#[test]
fn translate_tells_what_a_key_means() {
    let mut session = crawler(30);
    assert!(matches!(
        session.read_key(key(KeyCode::Char(' '))),
        Some(Event::StartQuiz(false))
    ));
    assert!(matches!(
        session.read_key(key(KeyCode::Char('q'))),
        Some(Event::Quit)
    ));
    assert!(session.read_key(key(KeyCode::Char('7'))).is_none());
    session.handle_event(Event::StartQuiz(false));
    assert!(session.read_key(key(KeyCode::Char('q'))).is_none());
    session.handle_event(Event::StartQuiz(true));
    session.tick();
    assert_eq!(frames(&session), vec!["tree"]);
    session.handle_event(Event::StartQuiz(true));
    session.tick();
    assert!(matches!(
        session.read_key(key(KeyCode::Char('7'))),
        Some(Event::AnswerDigit(7))
    ));
    assert!(matches!(
        session.read_key(key(KeyCode::Char('h'))),
        Some(Event::Hint)
    ));
    assert!(session.read_key(key(KeyCode::Char('٣'))).is_none());
    assert!(session.read_key(key(KeyCode::Down)).is_none());
}

#[test]
fn the_cursor_is_kept_for_each_place() {
    let mut state = TreeState::default();
    assert_eq!(state.get_selected(), 0);
    *state.get_selected_mut() = 3;
    assert_eq!(state.get_selected(), 3);
    state.path.push("German".to_string());
    assert_eq!(state.get_selected(), 0);
    *state.get_selected_mut() += 1;
    *state.get_selected_mut() += 1;
    assert_eq!(state.get_selected(), 2);
    state.path.pop();
    assert_eq!(state.get_selected(), 3);
    assert_eq!(state.selection_history.len(), 2);
}

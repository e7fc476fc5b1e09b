use quizcrawler::engine::data::{
    Bullet, List, Question, QuestionRef, QuestionStore, Section, Strictness, Term,
};
use quizcrawler::engine::dispatch::{DSettings, Dispatcher, QuizProgress, Score};
use quizcrawler::engine::logic::check_answer;
use quizcrawler::engine::quiz::{hint_penalty, MCSettings, MultipleChoice, QuestionCtx, Quiz};
use rand::rngs::StdRng;
use rand::SeedableRng;

fn percent(score: &Score) -> f64 {
    (score.correct as f64 - score.hints as f64 / 1_000_000.0) / score.seen as f64 * 100.0
}

fn cards(store: &mut QuestionStore, count: usize) -> Vec<QuestionRef> {
    (0..count)
        .map(|i| store.insert(Term::new(format!("term {}", i), format!("definition {}", i))))
        .collect()
}

fn session(count: usize, quiz_length: usize) -> (QuestionStore, Dispatcher<MultipleChoice>) {
    let mut store = QuestionStore::new();
    let questions = cards(&mut store, count);
    let section = Section::new("Cards".to_string(), Vec::new(), questions);
    let settings = DSettings {
        recursive: false,
        quiz_length,
    };
    let mut dispatcher = Dispatcher::new(settings, &section, &store);
    dispatcher.register_quiz(MultipleChoice::default());
    (store, dispatcher)
}

fn right_choice(quiz: &MultipleChoice, store: &QuestionStore) -> usize {
    let question = store.get(quiz.question.unwrap()).unwrap();
    let answer = question.peek();
    1 + quiz
        .get_choices()
        .iter()
        .position(|choice| choice == answer)
        .unwrap()
}

fn wrong_choice(quiz: &MultipleChoice, store: &QuestionStore) -> usize {
    let question = store.get(quiz.question.unwrap()).unwrap();
    let answer = question.peek();
    1 + quiz
        .get_choices()
        .iter()
        .position(|choice| choice != answer)
        .unwrap()
}

#[test]
fn check_answer_follows_the_strictness() {
    assert!(check_answer("right", "right", &Strictness::Exact));
    assert!(!check_answer(" right", "right", &Strictness::Exact));
    assert!(!check_answer("Right", "right", &Strictness::Exact));
    assert!(check_answer("  right\n", "right ", &Strictness::Trimmed));
    assert!(!check_answer("Right", "right", &Strictness::Trimmed));
    assert!(!check_answer("ri ght", "right", &Strictness::Trimmed));
    assert!(check_answer(" RiGhT ", "right", &Strictness::Caseless));
    assert!(check_answer("STRASSE", "strasse", &Strictness::Caseless));
    assert!(!check_answer("wrong", "right", &Strictness::Caseless));
    assert!(check_answer("", "  ", &Strictness::Trimmed));
}

#[test]
fn questions_are_equal_when_they_ask_the_same() {
    let mut a = Term::new("Bonjour".to_string(), "Hello".to_string());
    let b = Term::new("Bonjour".to_string(), "Hello".to_string());
    a.answer("Hello", 0);
    assert_eq!(a, b);
    assert_ne!(a, Term::new("Bonjour".to_string(), "Goodbye".to_string()));
    assert_ne!(a, Bullet::new("Bonjour".to_string()));
    assert_eq!(
        List::new(1, "one".to_string(), vec!["a".to_string()]),
        List::new(1, "one".to_string(), vec!["a".to_string()])
    );
    assert_ne!(
        List::new(1, "one".to_string(), vec!["a".to_string()]),
        List::new(1, "one".to_string(), vec!["b".to_string()])
    );
    assert_ne!(
        List::new(1, "one".to_string(), vec![]),
        List::new(2, "one".to_string(), vec![])
    );
}

#[test]
fn flipping_a_card_swaps_prompt_and_answer() {
    let mut question = Term::new("question".to_string(), "right".to_string());
    match question._get_variant() {
        quizcrawler::engine::data::QuestionVariant::Term(term) => term._flip(),
        _ => unreachable!(),
    }
    assert_eq!(question.ask(), "right");
    assert_eq!(question.peek(), "question");
    assert_eq!(question.answer("question", 0), (true, "question".to_string()));
}

#[test]
fn answer_records_the_hint_penalty() {
    let mut question = Term::new("q".to_string(), "a".to_string());
    assert_eq!(question.answer("a", 250_000), (true, "a".to_string()));
    assert_eq!(question.answer("b", 500_000), (false, "a".to_string()));
    assert_eq!(question.hints, 750_000);
    assert_eq!(question.seen, 2);
    assert_eq!(question.correct, 1);
    assert_eq!(question.mastery, 0);
    assert!(question.has_room(1_000_000));
}

#[test]
fn a_second_override_changes_nothing() {
    let mut a = Term::new("".to_string(), "right".to_string());
    a.answer("right", 0);
    a.answer("right", 0);
    a.answer("right", 0);
    a.answer("wrong", 0);
    let after_wrong = a.mastery;
    assert_eq!(after_wrong, 2);
    a.override_correct();
    assert_eq!(a.mastery, after_wrong + 2);
    assert_eq!(a.correct, 4);
    assert_eq!(a.seen, 4);
    a.override_correct();
    assert_eq!(a.mastery, after_wrong + 2);
    assert_eq!(a.correct, 4);
    assert_eq!(a.seen, 4);
}

#[test]
fn an_override_stops_at_the_top_of_the_scale() {
    let mut a = Term::new("".to_string(), "right".to_string());
    for _ in 0..10 {
        a.answer("right", 0);
    }
    assert_eq!(a.mastery, 10);
    a.answer("wrong", 0);
    assert_eq!(a.mastery, 9);
    a.override_correct();
    assert_eq!(a.mastery, 10);
}

#[test]
fn hint_penalty_is_the_share_of_choices_gone() {
    assert_eq!(hint_penalty(4, 4), 0);
    assert_eq!(hint_penalty(3, 4), 250_000);
    assert_eq!(hint_penalty(2, 4), 500_000);
    assert_eq!(hint_penalty(2, 3), 333_333);
    assert_eq!(hint_penalty(1, 3), 666_666);
    assert_eq!(hint_penalty(5, 4), 0);
    assert_eq!(hint_penalty(0, 0), 0);
    assert_eq!(hint_penalty(0, 7), 1_000_000);
}

#[test]
fn section_finds_children_by_path() {
    let mut store = QuestionStore::new();
    let deep = Section::new("Deep".to_string(), Vec::new(), cards(&mut store, 2));
    let twin_a = Section::new("Twin".to_string(), vec![deep], cards(&mut store, 1));
    let twin_b = Section::new("Twin".to_string(), Vec::new(), cards(&mut store, 3));
    let root = Section::new("Root".to_string(), vec![twin_a, twin_b], Vec::new());
    assert!(root.is_parent());
    assert!(!root.children[1].is_parent());
    let none: Vec<String> = Vec::new();
    assert_eq!(root.child_at_path(&none).unwrap().name, "Root");
    let found = root.child_at_path(&vec!["Twin".to_string()]).unwrap();
    assert_eq!(found.questions.len(), 1);
    let found = root
        .child_at_path(&vec!["Twin".to_string(), "Deep".to_string()])
        .unwrap();
    assert_eq!(found.questions.len(), 2);
    assert!(root.child_at_path(&vec!["Deep".to_string()]).is_none());
    assert!(root
        .child_at_path(&vec!["Twin".to_string(), "Missing".to_string()])
        .is_none());
    assert_eq!(root.find_child("Twin"), Some(0));
    assert_eq!(root.find_child("twin"), None);
}

#[test]
fn section_gathers_questions_depth_first() {
    let mut store = QuestionStore::new();
    let own = cards(&mut store, 1);
    let deep = Section::new("Deep".to_string(), Vec::new(), cards(&mut store, 2));
    let first = Section::new("First".to_string(), vec![deep], cards(&mut store, 1));
    let second = Section::new("Second".to_string(), Vec::new(), cards(&mut store, 1));
    let root = Section::new("Root".to_string(), vec![first, second], own);
    let indices = |found: Vec<QuestionRef>| found.iter().map(|r| r.index).collect::<Vec<_>>();
    assert_eq!(indices(root.get_questions(false)), vec![0]);
    assert_eq!(indices(root.get_questions(true)), vec![0, 3, 1, 2, 4]);
}

#[test]
fn dispatcher_records_where_each_question_sits() {
    let mut store = QuestionStore::new();
    let deep = Section::new("Deep".to_string(), Vec::new(), cards(&mut store, 1));
    let top = Section::new("Top".to_string(), vec![deep], cards(&mut store, 1));
    let settings = DSettings {
        recursive: true,
        quiz_length: 20,
    };
    let dispatcher: Dispatcher<MultipleChoice> = Dispatcher::new(settings, &top, &store);
    let paths: Vec<Vec<String>> = dispatcher
        .reference
        .iter()
        .map(|record| record.path.clone())
        .collect();
    assert_eq!(
        paths,
        vec![
            vec!["Top".to_string()],
            vec!["Top".to_string(), "Deep".to_string()]
        ]
    );
    let alone: Dispatcher<MultipleChoice> = Dispatcher::new(DSettings::default(), &top, &store);
    assert_eq!(alone.questions.len(), 1);
    assert_eq!(alone.settings.quiz_length, 20);
    assert!(!alone.settings.recursive);
}

#[test]
fn progress_of_five_cards_answered_right() {
    let (mut store, mut dispatcher) = session(5, 20);
    let mut rng = StdRng::seed_from_u64(11);
    let start = dispatcher.progress(&store);
    assert_eq!(start.questions, 5);
    assert_eq!(start.learned, 0);
    assert!(start.score.is_none());
    let mut learned = 0;
    while let Some(quiz) = dispatcher.next(&store, &mut rng) {
        let n = right_choice(&dispatcher.quizzes[quiz.index], &store);
        let outcome = dispatcher.quizzes[quiz.index].answer(&n.to_string(), &mut store);
        assert_eq!(outcome.map(|o| o.0), Some(true));
        let now = dispatcher.progress(&store);
        assert!(now.learned >= learned);
        assert!(now.learned <= now.questions);
        learned = now.learned;
    }
    let end: QuizProgress = dispatcher.progress(&store);
    assert_eq!(end.questions, 5);
    assert_eq!(end.learned, 5);
    assert_eq!(percent(&end.score.unwrap()), 100.0);
    assert!(dispatcher.remaining_questions(&store).is_empty());
}

#[test]
fn progress_after_a_wrong_answer_and_an_override() {
    let (mut store, mut dispatcher) = session(5, 20);
    let mut rng = StdRng::seed_from_u64(5);
    let first = dispatcher.next(&store, &mut rng).unwrap();
    let asked = dispatcher.quizzes[first.index].question.unwrap();
    let n = wrong_choice(&dispatcher.quizzes[first.index], &store);
    let outcome = dispatcher.quizzes[first.index].answer(&n.to_string(), &mut store);
    assert_eq!(outcome.map(|o| o.0), Some(false));
    let after_wrong = dispatcher.progress(&store);
    assert_eq!(after_wrong.learned, 0);
    assert_eq!(percent(&after_wrong.score.unwrap()), 0.0);
    dispatcher.quizzes[first.index].i_was_right(&mut store);
    {
        let question = store.get(asked).unwrap();
        assert_eq!(question.correct, question.seen);
        assert_eq!(question.seen, 1);
    }
    assert_eq!(dispatcher.progress(&store).learned, 1);
    while let Some(quiz) = dispatcher.next(&store, &mut rng) {
        let n = right_choice(&dispatcher.quizzes[quiz.index], &store);
        dispatcher.quizzes[quiz.index].answer(&n.to_string(), &mut store);
    }
    let end = dispatcher.progress(&store);
    assert_eq!(end.questions, 5);
    assert_eq!(end.learned, 5);
    let score = end.score.unwrap();
    assert_eq!((score.correct, score.seen, score.hints), (5, 5, 0));
    assert_eq!(percent(&score), 100.0);
}

#[test]
fn a_wrong_answer_that_stands_lowers_the_score() {
    let (mut store, mut dispatcher) = session(2, 20);
    let mut rng = StdRng::seed_from_u64(3);
    let first = dispatcher.next(&store, &mut rng).unwrap();
    let n = wrong_choice(&dispatcher.quizzes[first.index], &store);
    dispatcher.quizzes[first.index].answer(&n.to_string(), &mut store);
    while let Some(quiz) = dispatcher.next(&store, &mut rng) {
        let n = right_choice(&dispatcher.quizzes[quiz.index], &store);
        dispatcher.quizzes[quiz.index].answer(&n.to_string(), &mut store);
    }
    let end = dispatcher.progress(&store);
    assert_eq!(end.learned, 2);
    let score = end.score.unwrap();
    assert_eq!((score.correct, score.seen, score.hints), (2, 3, 0));
    assert!(percent(&score) < 100.0);
}

#[test]
fn a_session_asks_no_more_than_its_length() {
    let (mut store, mut dispatcher) = session(7, 3);
    let mut rng = StdRng::seed_from_u64(2);
    assert_eq!(dispatcher.progress(&store).questions, 3);
    assert_eq!(dispatcher.remaining_questions(&store).len(), 3);
    assert_eq!(dispatcher.pool, vec![true, true, true, false, false, false, false]);
    let mut asked = 0;
    while let Some(quiz) = dispatcher.next(&store, &mut rng) {
        let n = right_choice(&dispatcher.quizzes[quiz.index], &store);
        dispatcher.quizzes[quiz.index].answer(&n.to_string(), &mut store);
        asked += 1;
    }
    assert_eq!(asked, 3);
    assert_eq!(dispatcher.progress(&store).learned, 3);
}

#[test]
fn a_session_takes_the_questions_of_lowest_mastery() {
    let mut store = QuestionStore::new();
    let questions = cards(&mut store, 5);
    for (i, times) in [(0usize, 3), (1, 0), (2, 1), (3, 0), (4, 1)] {
        for _ in 0..times {
            store.answer(questions[i], &format!("definition {}", i), 0);
        }
    }
    let section = Section::new("Cards".to_string(), Vec::new(), questions);
    let settings = DSettings {
        recursive: false,
        quiz_length: 3,
    };
    let dispatcher: Dispatcher<MultipleChoice> = Dispatcher::new(settings, &section, &store);
    assert_eq!(dispatcher.pool, vec![false, true, true, true, false]);
    let left: Vec<usize> = dispatcher
        .remaining_questions(&store)
        .iter()
        .map(|r| r.index)
        .collect();
    assert_eq!(left, vec![1, 2, 3]);
    let baseline = dispatcher.question_progress(0, &store);
    assert_eq!((baseline.correct, baseline.seen, baseline.hints), (0, 0, 0));
    assert!(dispatcher.score(&store).is_none());
}

#[test]
fn the_question_asked_least_comes_next() {
    let (mut store, mut dispatcher) = session(3, 20);
    let mut rng = StdRng::seed_from_u64(9);
    let mut seen = vec![0usize; 3];
    for round in 0..9 {
        let quiz = dispatcher.next(&store, &mut rng).unwrap();
        let asked = dispatcher.quizzes[quiz.index].question.unwrap();
        assert_eq!(seen[asked.index], round / 3);
        seen[asked.index] += 1;
        let n = wrong_choice(&dispatcher.quizzes[quiz.index], &store);
        dispatcher.quizzes[quiz.index].answer(&n.to_string(), &mut store);
    }
    assert_eq!(seen, vec![3, 3, 3]);
}

#[test]
fn next_gives_nothing_for_questions_that_no_quiz_can_ask() {
    let mut store = QuestionStore::new();
    let fact = store.insert(Bullet::new("a fact".to_string()));
    let section = Section::new("Facts".to_string(), Vec::new(), vec![fact]);
    let mut dispatcher = Dispatcher::new(DSettings::default(), &section, &store);
    dispatcher.register_quiz(MultipleChoice::default());
    let mut rng = StdRng::seed_from_u64(1);
    assert!(dispatcher.next(&store, &mut rng).is_none());
    assert_eq!(dispatcher.progress(&store).learned, 0);
    assert_eq!(dispatcher.progress(&store).questions, 1);
}

#[test]
fn next_sets_the_context_of_the_quiz() {
    let mut store = QuestionStore::new();
    let mut questions = cards(&mut store, 3);
    questions.push(store.insert(Bullet::new("a fact".to_string())));
    let section = Section::new("Mixed".to_string(), Vec::new(), questions);
    let mut dispatcher = Dispatcher::new(DSettings::default(), &section, &store);
    dispatcher.register_quiz(MultipleChoice::default());
    let mut rng = StdRng::seed_from_u64(4);
    let quiz = dispatcher.next(&store, &mut rng).unwrap();
    let context: &QuestionCtx = dispatcher.quizzes[quiz.index].get_context();
    assert_eq!(context.path, vec!["Mixed".to_string()]);
    let siblings: Vec<usize> = context.siblings.iter().map(|r| r.index).collect();
    assert_eq!(siblings, vec![0, 1, 2]);
    let asked = dispatcher.quizzes[quiz.index].question.unwrap();
    assert!(asked.index < 3);
    assert_eq!(
        dispatcher.quizzes[quiz.index].ask(&store),
        format!("term {}", asked.index)
    );
}

fn assert_well_chosen(quiz: &MultipleChoice, store: &QuestionStore, count: usize) {
    let answer = store.get(quiz.question.unwrap()).unwrap().peek().to_string();
    let choices = quiz.get_choices();
    assert_eq!(choices.len(), count);
    assert_eq!(choices.iter().filter(|choice| **choice == answer).count(), 1);
    for (i, choice) in choices.iter().enumerate() {
        assert!(!choices[..i].contains(choice));
    }
}

#[test]
fn choices_are_as_many_as_asked_for() {
    for seed in 0..20 {
        let (store, mut dispatcher) = session(6, 20);
        let mut rng = StdRng::seed_from_u64(seed);
        let quiz = dispatcher.next(&store, &mut rng).unwrap();
        let quiz = &dispatcher.quizzes[quiz.index];
        assert_well_chosen(quiz, &store, 4);
        assert_eq!(quiz.offered, 4);
        for choice in quiz.get_choices() {
            assert!(choice.starts_with("definition "));
        }
    }
}

#[test]
fn choices_are_fewer_where_siblings_are_few() {
    let (store, mut dispatcher) = session(3, 20);
    let mut rng = StdRng::seed_from_u64(8);
    let quiz = dispatcher.next(&store, &mut rng).unwrap();
    assert_well_chosen(&dispatcher.quizzes[quiz.index], &store, 3);
    let (store, mut dispatcher) = session(1, 20);
    let quiz = dispatcher.next(&store, &mut rng).unwrap();
    assert_well_chosen(&dispatcher.quizzes[quiz.index], &store, 1);
}

#[test]
fn choices_hold_each_answer_once() {
    let mut store = QuestionStore::new();
    let mut questions = Vec::new();
    for i in 0..6 {
        questions.push(store.insert(Term::new(format!("term {}", i), "same".to_string())));
    }
    questions.push(store.insert(Term::new("odd".to_string(), "other".to_string())));
    let section = Section::new("Cards".to_string(), Vec::new(), questions);
    let mut dispatcher = Dispatcher::new(DSettings::default(), &section, &store);
    dispatcher.register_quiz(MultipleChoice::default());
    let mut rng = StdRng::seed_from_u64(6);
    let quiz = dispatcher.next(&store, &mut rng).unwrap();
    assert_well_chosen(&dispatcher.quizzes[quiz.index], &store, 2);
}

#[test]
fn the_number_of_choices_can_be_set() {
    let mut store = QuestionStore::new();
    let questions = cards(&mut store, 8);
    let section = Section::new("Cards".to_string(), Vec::new(), questions);
    let mut dispatcher = Dispatcher::new(DSettings::default(), &section, &store);
    dispatcher.register_quiz(MultipleChoice::_new(MCSettings { choices: 6 }));
    let mut rng = StdRng::seed_from_u64(6);
    let quiz = dispatcher.next(&store, &mut rng).unwrap();
    assert_well_chosen(&dispatcher.quizzes[quiz.index], &store, 6);
    assert_eq!(MCSettings::default().choices, 4);
}

#[test]
fn hints_take_wrong_choices_away_down_to_two() {
    for seed in 0..10 {
        let (store, mut dispatcher) = session(6, 20);
        let mut rng = StdRng::seed_from_u64(seed);
        let quiz = dispatcher.next(&store, &mut rng).unwrap();
        let quiz = &mut dispatcher.quizzes[quiz.index];
        let before: Vec<String> = quiz.get_choices().clone();
        quiz.get_hint(&store, &mut rng);
        assert_well_chosen(quiz, &store, 3);
        for choice in quiz.get_choices() {
            assert!(before.contains(choice));
        }
        quiz.get_hint(&store, &mut rng);
        assert_well_chosen(quiz, &store, 2);
        quiz.get_hint(&store, &mut rng);
        assert_well_chosen(quiz, &store, 2);
        assert_eq!(quiz.offered, 4);
    }
}

#[test]
fn drop_choice_takes_the_choice_at_a_place() {
    let mut quiz = MultipleChoice::default();
    quiz.choices = vec!["a".to_string(), "b".to_string(), "c".to_string()];
    quiz.drop_choice(1);
    assert_eq!(quiz.choices, vec!["a".to_string(), "c".to_string()]);
}

#[test]
fn hints_cost_a_share_of_the_answer() {
    let (mut store, mut dispatcher) = session(6, 20);
    let mut rng = StdRng::seed_from_u64(12);
    let quiz = dispatcher.next(&store, &mut rng).unwrap();
    let asked = dispatcher.quizzes[quiz.index].question.unwrap();
    dispatcher.quizzes[quiz.index].get_hint(&store, &mut rng);
    let n = right_choice(&dispatcher.quizzes[quiz.index], &store);
    assert_eq!(
        dispatcher.quizzes[quiz.index].answer(&n.to_string(), &mut store),
        Some((true, format!("definition {}", asked.index)))
    );
    assert_eq!(store.get(asked).unwrap().hints, 250_000);
    let score = dispatcher.progress(&store).score.unwrap();
    assert_eq!((score.correct, score.seen, score.hints), (1, 1, 250_000));
    assert_eq!(percent(&score), 75.0);
}

#[test]
fn input_that_is_no_answer_changes_nothing() {
    let (mut store, mut dispatcher) = session(6, 20);
    let mut rng = StdRng::seed_from_u64(13);
    let quiz = dispatcher.next(&store, &mut rng).unwrap();
    let asked = dispatcher.quizzes[quiz.index].question.unwrap();
    for input in ["0", "5", "x", "", " 1", "-1", "1.0", "99999999999999999999999"] {
        assert_eq!(dispatcher.quizzes[quiz.index].answer(input, &mut store), None);
    }
    assert_eq!(dispatcher.quizzes[quiz.index].answer_choice(0, &mut store), None);
    assert_eq!(dispatcher.quizzes[quiz.index].answer_choice(5, &mut store), None);
    assert_eq!(store.get(asked).unwrap().seen, 0);
    assert!(dispatcher.quizzes[quiz.index]
        .answer("+4", &mut store)
        .is_some());
    assert_eq!(store.get(asked).unwrap().seen, 1);
}

#[test]
fn a_quiz_without_a_question_does_nothing() {
    let mut store = QuestionStore::new();
    let question = store.insert(Term::new("q".to_string(), "a".to_string()));
    let mut rng = StdRng::seed_from_u64(14);
    let mut quiz = MultipleChoice::default();
    assert_eq!(quiz.ask(&store), "");
    assert!(quiz.get_choices().is_empty());
    quiz.get_hint(&store, &mut rng);
    assert_eq!(quiz.answer("1", &mut store), None);
    quiz.i_was_right(&mut store);
    assert_eq!(store.get(question).unwrap().seen, 0);
    assert_eq!(store.get(question).unwrap().correct, 0);
    assert!(quiz.is_applicable(store.get(question).unwrap()));
    assert!(!quiz.is_applicable(&Bullet::new("fact".to_string())));
    assert!(!quiz.is_applicable(&List::new(1, "item".to_string(), Vec::new())));
}

#[test]
fn the_store_hands_out_what_it_holds() {
    let mut store = QuestionStore::new();
    assert_eq!(store.len(), 0);
    let first = store.insert(Term::new("q".to_string(), "a".to_string()));
    let second = store.insert(Term::new("r".to_string(), "b".to_string()));
    assert_eq!((first.index, second.index, store.len()), (0, 1, 2));
    assert_eq!(store.get(second).unwrap().peek(), "b");
    assert!(store.get(QuestionRef { index: 2 }).is_none());
    store.get_mut(first).comp_level = Strictness::Caseless;
    assert_eq!(store.answer(first, " A ", 0), (true, "a".to_string()));
    store.override_correct(second);
    let untouched: &Question = store.get(second).unwrap();
    assert_eq!((untouched.correct, untouched.seen, untouched.mastery), (0, 0, 0));
}

#[test]
fn the_right_answer_stands_at_changing_places() {
    let mut places = Vec::new();
    for seed in 0..40 {
        let (store, mut dispatcher) = session(6, 20);
        let mut rng = StdRng::seed_from_u64(seed);
        let quiz = dispatcher.next(&store, &mut rng).unwrap();
        places.push(right_choice(&dispatcher.quizzes[quiz.index], &store));
    }
    for place in 1..=4 {
        assert!(places.contains(&place));
    }
}

#[test]
fn the_same_seed_gives_the_same_quiz() {
    let run = |seed: u64| {
        let (store, mut dispatcher) = session(6, 20);
        let mut rng = StdRng::seed_from_u64(seed);
        let quiz = dispatcher.next(&store, &mut rng).unwrap();
        let quiz = &dispatcher.quizzes[quiz.index];
        (quiz.question.unwrap().index, quiz.get_choices().clone())
    };
    assert_eq!(run(17), run(17));
    assert_eq!(run(18), run(18));
}

#[test]
fn a_clone_of_a_question_keeps_its_moment() {
    let mut question = Term::new("q".to_string(), "a".to_string());
    question.answer("a", 0);
    let copy = question.clone();
    assert_eq!(copy.last_correct, question.last_correct);
    assert_eq!(copy.id, question.id);
    assert_eq!(copy.seen, 1);
}

#[test]
fn offer_sets_the_question_and_its_choices() {
    let mut store = QuestionStore::new();
    let question = store.insert(Term::new("q".to_string(), "b".to_string()));
    let mut quiz = MultipleChoice::default();
    quiz.offer(
        question,
        vec!["a".to_string(), "b".to_string(), "c".to_string()],
    );
    assert_eq!(quiz.question, Some(question));
    assert_eq!(quiz.offered, 3);
    assert_eq!(quiz.ask(&store), "q");
    assert_eq!(quiz.answer_choice(1, &mut store), Some((false, "b".to_string())));
    quiz.drop_choice(0);
    assert_eq!(quiz.answer_choice(1, &mut store), Some((true, "b".to_string())));
    let answered = store.get(question).unwrap();
    assert_eq!((answered.seen, answered.correct, answered.hints), (2, 1, 333_333));
}

#[test]
fn dispatch_sets_up_the_quiz_for_the_question() {
    let (store, mut dispatcher) = session(5, 20);
    let mut rng = StdRng::seed_from_u64(31);
    let quiz = quizcrawler::engine::dispatch::QuizRef { index: 0 };
    dispatcher.dispatch(3, quiz, &store, &mut rng);
    assert_eq!(dispatcher.quizzes[0].question, Some(QuestionRef { index: 3 }));
    assert_eq!(dispatcher.quizzes[0].ask(&store), "term 3");
    assert_eq!(
        dispatcher.quizzes[0].get_context().path,
        vec!["Cards".to_string()]
    );
    assert_eq!(dispatcher.quizzes[0].get_context().siblings.len(), 5);
    assert_well_chosen(&dispatcher.quizzes[0], &store, 4);
}

#[test]
fn mark_lowest_marks_by_mastery_and_then_by_place() {
    use_baselines(&[3, 0, 1, 0, 1], 3, &[false, true, true, true, false]);
    use_baselines(&[3, 0, 1, 0, 1], 4, &[false, true, true, true, true]);
    use_baselines(&[3, 0, 1, 0, 1], 9, &[true, true, true, true, true]);
    use_baselines(&[3, 0, 1, 0, 1], 0, &[false, false, false, false, false]);
    use_baselines(&[5, 5, 5], 2, &[true, true, false]);
    use_baselines(&[255, 10, 0], 2, &[false, true, true]);
    use_baselines(&[], 2, &[]);
}

fn use_baselines(masteries: &[u8], cap: usize, expected: &[bool]) {
    let reference: Vec<quizcrawler::engine::dispatch::Baseline> = masteries
        .iter()
        .map(|mastery| quizcrawler::engine::dispatch::Baseline {
            correct: 0,
            seen: 0,
            hints: 0,
            mastery: *mastery,
            path: Vec::new(),
        })
        .collect();
    assert_eq!(
        quizcrawler::engine::dispatch::mark_lowest(&reference, cap),
        expected.to_vec()
    );
}

#[test]
fn a_tree_and_its_store_can_be_held_to_each_other() {
    let mut store = QuestionStore::new();
    let leaf = Section::new("Leaf".to_string(), Vec::new(), cards(&mut store, 2));
    let tree = Section::new("Root".to_string(), vec![leaf], cards(&mut store, 1));
    assert!(tree.fits_in(3));
    assert!(!tree.fits_in(2));
    assert!(tree.children[0].fits_in(2));
    assert!(store.well_formed());
    let copy = tree.clone();
    assert_eq!(copy.name, "Root");
    assert_eq!(copy.children[0].name, "Leaf");
    assert_eq!(copy.get_questions(true), tree.get_questions(true));
    store.get_mut(QuestionRef { index: 0 }).mastery = 11;
    assert!(!store.well_formed());
    store.get_mut(QuestionRef { index: 0 }).mastery = 10;
    store.get_mut(QuestionRef { index: 1 }).correct = 1;
    assert!(!store.well_formed());
}

use quizcrawler::engine::data::{Bullet, Question, QuestionVariant, Term};
use std::time::{Duration, SystemTime};

fn make_term(t: &str, d: &str) -> Question {
    Term::new(t.to_string(), d.to_string())
}

#[test]
fn variant_equality() {
    let a = make_term("Bonjour", "Hello");
    let b = make_term("Bonjour", "Hello");
    assert_eq!(a, b);
    assert_ne!(a.id, b.id);
}

#[test]
fn mastery_lower_bound() {
    let mut a = make_term("", "right");
    for _ in 1..100 {
        a.answer("wrong", 0);
    }
    assert_eq!(a.mastery, 0);
}

#[test]
fn mastery_upper_bound() {
    let mut a = make_term("", "right");
    for _ in 1..100 {
        a.answer("right", 0);
    }
    assert_eq!(a.mastery, 10);
}

#[test]
fn mastery_up_and_down() {
    let mut a = make_term("", "right");
    a.answer("right", 0);
    a.answer("right", 0);
    a.answer("right", 0);
    a.answer("wrong", 0);
    a.answer("right", 0);
    a.answer("wrong", 0);
    assert_eq!(a.mastery, 2);
}

#[test]
fn last_correct_time() {
    let mut a = make_term("", "right");
    let t1 = a.last_correct.clone();
    a.answer("wrong", 0);
    a.answer("wrong", 0);
    let t2 = a.last_correct.clone();
    a.answer("right", 0);
    let t3 = a.last_correct.clone();
    assert_eq!(t1, t2);
    assert!(t3 > t2);
}

#[test]
fn override_correct_works() {
    let mut a = make_term("", "right");
    a.answer("right", 0);
    a.answer("wrong", 0);
    assert!(a.correct < a.seen);
    assert_eq!(a.mastery, 0);
    a.override_correct();
    assert_eq!(a.correct, a.seen);
    assert_eq!(a.mastery, 2);
}

#[test]
fn override_correct_cant_be_cheated() {
    let mut a = make_term("", "right");
    a.answer("right", 0);
    assert_eq!(a.correct, a.seen);
    assert_eq!(a.mastery, 1);
    a.override_correct();
    assert_eq!(a.correct, a.seen);
    assert_eq!(a.mastery, 1);
}

#[test]
fn ask_term() {
    let a = make_term("question", "right");
    assert_eq!(a.ask(), "question");
}

#[test]
fn peek_term() {
    let a = make_term("question", "right");
    assert_eq!(a.peek(), "right");
    assert_eq!(a.seen, 0);
}

#[test]
fn a_question_can_be_given_its_identifier() {
    let moment = SystemTime::UNIX_EPOCH + Duration::from_secs(86_400);
    let question = Question::with_id(
        QuestionVariant::Bullet(Bullet {
            body: "a fact".to_string(),
        }),
        7,
        moment,
    );
    assert_eq!(question.id, 7);
    assert_eq!(question.last_correct, moment);
    assert_eq!(
        (question.mastery, question.correct, question.seen, question.hints),
        (0, 0, 0, 0)
    );
}

#[test]
fn an_answer_at_a_moment_records_the_moment() {
    let mut question = make_term("q", "right");
    let before = question.last_correct;
    let moment = SystemTime::UNIX_EPOCH + Duration::from_secs(1);
    assert_eq!(question.answer_at("wrong", 0, moment), (false, "right".to_string()));
    assert_eq!(question.last_correct, before);
    assert_eq!(question.answer_at("right", 0, moment), (true, "right".to_string()));
    assert_eq!(question.last_correct, moment);
}

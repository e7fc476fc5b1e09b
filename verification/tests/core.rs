use quizcrawler::crawler::data::{BulletConfig, Crawler, ReflowStrategy, SectionConfig};
use quizcrawler::engine::data::{QuestionStore, QuestionVariant, Section, Term};
use quizcrawler::engine::outline::Outline;

fn crawler() -> Crawler {
    Crawler {
        title: "Org".to_string(),
        exts: vec!["org".to_string()],
        flow: ReflowStrategy::Unflow,
        section: Some(SectionConfig {
            marker: "*".to_string(),
            name: ".*".to_string(),
            body: "(?m:.*?)".to_string(),
        }),
        term: None,
        list: None,
        bullet: Some(BulletConfig {
            leader: r"^\s*- ".to_string(),
            body: "(?m:.+?)".to_string(),
            terminator: r"(?=^\s*- |\z)".to_string(),
        }),
    }
}

#[test]
fn find_child_at_path() {
    let data_str = r#"
* Theme
** Topic 1
*** Subtopic A
  - Not quite right...
** Topic 2
*** Subtopic A
  - Well done!
"#;

    let path = vec!["Topic 2".to_string(), "Subtopic A".to_string()];
    let mut store = QuestionStore::new();
    let section = crawler().parse_sections(data_str).unwrap()[0].plant(&mut store);
    let child = section.child_at_path(&path).unwrap();
    assert_eq!(child.name, "Subtopic A");
    assert!(child.children.is_empty());
    assert_eq!(child.questions.len(), 1);
    let question = store.get(child.questions[0]).unwrap();
    match &question.data {
        QuestionVariant::Bullet(bullet) => assert_eq!(bullet.body, "Well done!"),
        _ => panic!("not a fact"),
    }
    assert_eq!((question.mastery, question.correct, question.seen), (0, 0, 0));
}

fn same_notes(a: &Outline, b: &Outline) -> bool {
    a.name == b.name
        && a.questions.len() == b.questions.len()
        && a.questions.iter().zip(&b.questions).all(|(x, y)| {
            x == y
                && x.id == y.id
                && x.mastery == y.mastery
                && x.correct == y.correct
                && x.seen == y.seen
                && x.hints == y.hints
                && x.last_correct == y.last_correct
        })
        && a.children.len() == b.children.len()
        && a.children.iter().zip(&b.children).all(|(x, y)| same_notes(x, y))
}

#[test]
fn notes_come_back_from_the_store_as_they_went_in() {
    let mut answered = Term::new("q".to_string(), "a".to_string());
    answered.answer("a", 250_000);
    answered.answer("b", 0);
    let leaf = Outline::new(
        "Leaf".to_string(),
        Vec::new(),
        vec![Term::new("r".to_string(), "b".to_string())],
    );
    let notes = Outline::new(
        "Root".to_string(),
        vec![leaf, Outline::new("Bare".to_string(), Vec::new(), Vec::new())],
        vec![answered, Term::new("s".to_string(), "c".to_string())],
    );
    let mut store = QuestionStore::new();
    store.insert(Term::new("there before".to_string(), "x".to_string()));
    let tree: Section = notes.plant(&mut store);
    assert_eq!(store.len(), 4);
    let places: Vec<usize> = tree.get_questions(true).iter().map(|r| r.index).collect();
    assert_eq!(places, vec![1, 2, 3]);
    assert_eq!(tree.children[0].questions[0].index, 3);
    let again = tree.outline(&store);
    assert!(same_notes(&notes, &again));
    let mut fresh = QuestionStore::new();
    let reloaded = again.plant(&mut fresh);
    assert!(same_notes(&notes, &reloaded.outline(&fresh)));
    assert_eq!(fresh.get(reloaded.questions[0]).unwrap().hints, 250_000);
}

#[test]
fn a_copy_of_a_question_keeps_everything() {
    let mut question = Term::new("q".to_string(), "a".to_string());
    question.answer("a", 7);
    let copy = question.duplicate();
    assert_eq!(copy, question);
    assert_eq!(copy.id, question.id);
    assert_eq!(copy.last_correct, question.last_correct);
    assert_eq!(
        (copy.mastery, copy.correct, copy.seen, copy.hints),
        (1, 1, 1, 7)
    );
}

use quizcrawler::console::render::{
    answer_lines, choice_lines, context_line, decimal, progress_titlebar, tree_lines,
    tree_titlebar,
};
use quizcrawler::engine::data::{QuestionRef, Section};
use quizcrawler::engine::dispatch::QuizProgress;

fn section(name: &str, children: usize, questions: usize) -> Section {
    Section::new(
        name.to_string(),
        (0..children)
            .map(|i| Section::new(format!("Child number {}", i), Vec::new(), Vec::new()))
            .collect(),
        (0..questions).map(|index| QuestionRef { index }).collect(),
    )
}

#[test]
fn decimal_writes_numbers() {
    assert_eq!(decimal(0), "0");
    assert_eq!(decimal(7), "7");
    assert_eq!(decimal(10), "10");
    assert_eq!(decimal(9051), "9051");
    assert_eq!(decimal(usize::MAX), usize::MAX.to_string());
}

#[test]
fn tree_titlebar_counts_children_and_questions() {
    let rest = vec!["Grammar".to_string()];
    assert_eq!(
        tree_titlebar("German.org", &rest, &section("x", 2, 1), 50),
        "German.org/Grammar────────2 Children, 1 Question"
    );
    assert_eq!(
        tree_titlebar("German.org", &rest, &section("x", 1, 0), 50),
        "German.org/Grammar──────────1 Child, 0 Questions"
    );
    assert_eq!(
        tree_titlebar("German.org", &rest, &section("x", 0, 12), 40),
        "G/Grammar─────0 Children, 12 Questions"
    );
    assert_eq!(
        tree_titlebar("German.org", &rest, &section("x", 0, 12), 5),
        "G/G─0 Children, 12 Questions"
    );
}

#[test]
fn progress_titlebar_tells_what_is_learned() {
    let progress = QuizProgress {
        questions: 20,
        learned: 3,
        score: None,
    };
    assert_eq!(
        progress_titlebar(&progress, "Your score is 75.00%".to_string(), 50),
        "Learned 3 of 20─────────────Your score is 75.00%"
    );
    assert_eq!(
        progress_titlebar(&progress, String::new(), 20),
        "Learned 3 of 20───"
    );
}

#[test]
fn context_line_joins_the_path() {
    assert_eq!(
        context_line(&vec!["German".to_string(), "Nouns".to_string()]),
        "German > Nouns\n"
    );
    assert_eq!(context_line(&Vec::new()), "\n");
}

#[test]
fn choice_lines_are_numbered_from_one() {
    let choices = vec!["teacher".to_string(), "to know".to_string()];
    assert_eq!(
        choice_lines(&choices),
        vec!["1) teacher\n".to_string(), "2) to know\n".to_string()]
    );
    assert!(choice_lines(&Vec::new()).is_empty());
}

#[test]
fn answer_lines_tell_the_outcome() {
    assert_eq!(
        answer_lines(true, "teacher"),
        (
            "Well done, the answer is: teacher\n".to_string(),
            "SPACE to continue...".to_string()
        )
    );
    assert_eq!(
        answer_lines(false, "teacher"),
        (
            "Sorry, the answer is: teacher\n".to_string(),
            "SPACE to continue, 'o' for manual override...".to_string()
        )
    );
}

#[test]
fn tree_lines_fit_the_names_to_the_width() {
    let node = section("x", 2, 0);
    assert_eq!(
        tree_lines(&node, 40),
        vec!["Child number 0".to_string(), "Child number 1".to_string()]
    );
    assert_eq!(
        tree_lines(&node, 13),
        vec!["C number 0".to_string(), "C number 1".to_string()]
    );
    assert_eq!(
        tree_lines(&node, 12),
        vec!["Cn 0".to_string(), "Cn 1".to_string()]
    );
    assert_eq!(tree_lines(&node, 2), vec!["Cn0".to_string(), "Cn1".to_string()]);
    assert!(tree_lines(&section("x", 0, 3), 40).is_empty());
}

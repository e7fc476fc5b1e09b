use crate::console::util::{
    compact_path, compact_path_of, compact_title, compact_title_of, grapheme_len, join,
    joined_upto, padding_of, render_titlebar, repeated, width_of,
};
use crate::engine::data::Section;
use crate::engine::dispatch::QuizProgress;
use crate::engine::text::clone_texts;
use vstd::prelude::*;

verus! {

/// The character of a digit.
pub open spec fn digit_of(d: nat) -> char {
    if d == 0 {
        '0'
    } else if d == 1 {
        '1'
    } else if d == 2 {
        '2'
    } else if d == 3 {
        '3'
    } else if d == 4 {
        '4'
    } else if d == 5 {
        '5'
    } else if d == 6 {
        '6'
    } else if d == 7 {
        '7'
    } else if d == 8 {
        '8'
    } else {
        '9'
    }
}

/// A number written in decimal digits.
pub open spec fn decimal_of(n: nat) -> Seq<char>
    decreases n,
{
    if n < 10 {
        seq![digit_of(n)]
    } else {
        decimal_of(n / 10).push(digit_of(n % 10))
    }
}

/// The text of a digit.
fn digit(d: usize) -> (text: &'static str)
    requires
        d < 10,
    ensures
        text@ == seq![digit_of(d as nat)],
{
    proof {
        reveal_strlit("0");
        reveal_strlit("1");
        reveal_strlit("2");
        reveal_strlit("3");
        reveal_strlit("4");
        reveal_strlit("5");
        reveal_strlit("6");
        reveal_strlit("7");
        reveal_strlit("8");
        reveal_strlit("9");
    }
    let text = if d == 0 {
        "0"
    } else if d == 1 {
        "1"
    } else if d == 2 {
        "2"
    } else if d == 3 {
        "3"
    } else if d == 4 {
        "4"
    } else if d == 5 {
        "5"
    } else if d == 6 {
        "6"
    } else if d == 7 {
        "7"
    } else if d == 8 {
        "8"
    } else {
        "9"
    };
    assert(text@ =~= seq![digit_of(d as nat)]);
    text
}

/// Writes a number in decimal digits.
pub fn decimal(n: usize) -> (text: String)
    ensures
        text@ == decimal_of(n as nat),
    decreases n,
{
    if n < 10 {
        String::from_str(digit(n))
    } else {
        let mut text = decimal(n / 10);
        let ghost before = text@;
        text.append(digit(n % 10));
        assert(text@ =~= before.push(digit_of((n % 10) as nat)));
        text
    }
}

/// What is said of a section in the title bar: how many children and how
/// many questions it has.
pub open spec fn info_of(children: nat, questions: nat) -> Seq<char> {
    decimal_of(children) + " Child"@ + (if children == 1 {
        ""@
    } else {
        "ren"@
    }) + ", "@ + decimal_of(questions) + " Question"@ + (if questions == 1 {
        ""@
    } else {
        "s"@
    })
}

/// The room that the path has in a title bar of a width, beside what is
/// said of the section, the two corners and one spacer.
pub open spec fn path_room(info: Seq<char>, width: u16) -> nat {
    if width > width_of(info) + 3 {
        (width - (width_of(info) + 3)) as nat
    } else {
        0
    }
}

/// The title bar of the view of the tree: at the left the path from the
/// root to where the user stands, made to fit; at the right the number of
/// children and questions of the section that is selected; spacers between.
pub open spec fn tree_titlebar_of(
    root: Seq<char>,
    rest: Seq<Seq<char>>,
    children: nat,
    questions: nat,
    width: u16,
) -> Seq<char> {
    let info = info_of(children, questions);
    let path = compact_path_of(seq![root] + rest, "/"@, path_room(info, width));
    path + repeated("─"@, padding_of(path, info, width)) + info
}

/// The title bar of the view of the tree.
pub fn tree_titlebar(root: &str, rest: &Vec<String>, selected: &Section, width: u16) -> (bar:
    String)
    ensures
        bar@ == tree_titlebar_of(
            root@,
            rest.deep_view(),
            selected.children.len() as nat,
            selected.questions.len() as nat,
            width,
        ),
{
    let mut path: Vec<String> = Vec::new();
    path.push(String::from_str(root));
    let mut more = clone_texts(rest);
    path.append(&mut more);
    assert(path.deep_view() =~= seq![root@] + rest.deep_view());
    let children = selected.children.len();
    let questions = selected.questions.len();
    let mut info = decimal(children);
    info.append(" Child");
    info.append(if children == 1 { "" } else { "ren" });
    info.append(", ");
    info.append(decimal(questions).as_str());
    info.append(" Question");
    info.append(if questions == 1 { "" } else { "s" });
    assert(info@ =~= info_of(children as nat, questions as nat));
    // The 3 is from both corners plus the spacer between right and left
    let taken: u128 = grapheme_len(info.as_str()) as u128 + 3;
    let target_len: usize = if (width as u128) > taken {
        (width as u128 - taken) as usize
    } else {
        0
    };
    let path = compact_path(&path, "/", target_len);
    render_titlebar(path, "─", info, width)
}

/// The title bar of a question: at the left how many questions of the
/// session are learned, at the right the score as the caller has written it,
/// spacers between.
pub open spec fn progress_titlebar_of(progress: QuizProgress, score: Seq<char>, width: u16) -> Seq<
    char,
> {
    let learned = "Learned "@ + decimal_of(progress.learned as nat) + " of "@ + decimal_of(
        progress.questions as nat,
    );
    learned + repeated("─"@, padding_of(learned, score, width)) + score
}

/// The title bar of a question.
pub fn progress_titlebar(progress: &QuizProgress, score: String, width: u16) -> (bar: String)
    ensures
        bar@ == progress_titlebar_of(*progress, score@, width),
{
    let mut learned = String::from_str("Learned ");
    learned.append(decimal(progress.learned).as_str());
    learned.append(" of ");
    learned.append(decimal(progress.questions).as_str());
    assert(learned@ =~= "Learned "@ + decimal_of(progress.learned as nat) + " of "@ + decimal_of(
        progress.questions as nat,
    ));
    render_titlebar(learned, "─", score, width)
}

/// The line that says where a question sits: the names of its path with
/// arrows between them.
pub fn context_line(path: &Vec<String>) -> (line: String)
    ensures
        line@ == joined_upto(path.deep_view(), " > "@, path.len() as nat) + "\n"@,
{
    let mut line = join(path, " > ");
    line.append("\n");
    line
}

/// The line of choice number `i`, counted from zero: its number, counted
/// from one, and its text.
pub open spec fn choice_line_of(i: nat, choice: Seq<char>) -> Seq<char> {
    decimal_of(i + 1) + ") "@ + choice + "\n"@
}

/// The lines of the choices, each with its number.
pub fn choice_lines(choices: &Vec<String>) -> (lines: Vec<String>)
    ensures
        lines.len() == choices.len(),
        forall|i: int|
            0 <= i < choices.len() ==> (#[trigger] lines[i])@ == choice_line_of(
                i as nat,
                choices[i]@,
            ),
{
    let mut lines: Vec<String> = Vec::new();
    let mut i: usize = 0;
    while i < choices.len()
        invariant
            i <= choices.len(),
            lines.len() == i,
            forall|k: int|
                0 <= k < i ==> (#[trigger] lines[k])@ == choice_line_of(k as nat, choices[k]@),
        decreases choices.len() - i,
    {
        let mut line = decimal(i + 1);
        line.append(") ");
        line.append(choices[i].as_str());
        line.append("\n");
        assert(line@ =~= choice_line_of(i as nat, choices[i as int]@));
        lines.push(line);
        i += 1;
    }
    lines
}

/// What is said of an answer.
pub open spec fn verdict_of(correct: bool, answer: Seq<char>) -> Seq<char> {
    (if correct {
        "Well done"@
    } else {
        "Sorry"@
    }) + ", the answer is: "@ + answer + "\n"@
}

/// What the user can do once an answer was given.
pub open spec fn advice_of(correct: bool) -> Seq<char> {
    if correct {
        "SPACE to continue..."@
    } else {
        "SPACE to continue, 'o' for manual override..."@
    }
}

/// What is said of an answer, and what the user can do next.
pub fn answer_lines(correct: bool, answer: &str) -> (lines: (String, String))
    ensures
        lines.0@ == verdict_of(correct, answer@),
        lines.1@ == advice_of(correct),
{
    let mut verdict = String::from_str(if correct { "Well done" } else { "Sorry" });
    verdict.append(", the answer is: ");
    verdict.append(answer);
    verdict.append("\n");
    let advice = String::from_str(
        if correct {
            "SPACE to continue..."
        } else {
            "SPACE to continue, 'o' for manual override..."
        },
    );
    assert(verdict@ =~= verdict_of(correct, answer@));
    (verdict, advice)
}

/// The room for a name in a list that is `width` wide, the border and the
/// cursor taken off.
pub open spec fn name_room(width: u16) -> nat {
    if width > 3 {
        (width - 3) as nat
    } else {
        0
    }
}

/// The names of the children of a section, each made to fit in a list that
/// is `width` wide.
pub fn tree_lines(node: &Section, width: u16) -> (lines: Vec<String>)
    ensures
        lines.len() == node.children.len(),
        forall|i: int|
            0 <= i < node.children.len() ==> (#[trigger] lines[i])@ == compact_title_of(
                node.children[i].name@,
                name_room(width),
            ),
{
    let room: usize = if width > 3 {
        (width - 3) as usize
    } else {
        0
    };
    let mut lines: Vec<String> = Vec::new();
    let mut i: usize = 0;
    while i < node.children.len()
        invariant
            i <= node.children.len(),
            room == name_room(width),
            lines.len() == i,
            forall|k: int|
                0 <= k < i ==> (#[trigger] lines[k])@ == compact_title_of(
                    node.children[k].name@,
                    name_room(width),
                ),
        decreases node.children.len() - i,
    {
        lines.push(compact_title(node.children[i].name.as_str(), room));
        i += 1;
    }
    lines
}

} // verus!

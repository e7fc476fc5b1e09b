use quizcrawler::console::util::{compact_path, compact_title, grapheme_len, render_titlebar};

fn path_of(names: &[&str]) -> Vec<String> {
    names.iter().map(|name| name.to_string()).collect()
}

#[test]
fn test_render_titlebar_with_space() {
    let titlebar = render_titlebar(
        "This/Is/A/Test/Path".to_string(),
        "─",
        "20 Questions".to_string(),
        60,
    );
    assert_eq!(
        titlebar,
        "This/Is/A/Test/Path───────────────────────────20 Questions"
    );
}

#[test]
fn test_render_titlebar_without_space() {
    let titlebar = render_titlebar(
        "This/Is/A/Test/Path".to_string(),
        "─",
        "20 Questions".to_string(),
        20,
    );
    assert_eq!(titlebar, "This/Is/A/Test/Path─20 Questions");
}

#[test]
fn test_compact_path_plenty_of_space() {
    let path = path_of(&[
        "German.org",
        "Sorted Class Notes",
        "Grammar",
        "Adjective Endings",
    ]);
    assert_eq!(
        compact_path(&path, "/", 55),
        "German.org/Sorted Class Notes/Grammar/Adjective Endings"
    );
}

#[test]
fn test_compact_path_less_space() {
    let path = path_of(&[
        "German.org",
        "Sorted Class Notes",
        "Grammar",
        "Adjective Endings",
    ]);
    assert_eq!(
        compact_path(&path, "/", 36),
        "G/SC Notes/Grammar/Adjective Endings"
    );
}

#[test]
fn test_compact_path_less_space_with_wide_sep() {
    let path = path_of(&[
        "German.org",
        "Sorted Class Notes",
        "Grammar",
        "Adjective Endings",
    ]);
    assert_eq!(
        compact_path(&path, " ⤕ ", 36),
        "G ⤕ SCN ⤕ G ⤕ Adjective Endings"
    );
}

#[test]
fn test_compact_path_hardly_any_space() {
    let path = path_of(&[
        "German.org",
        "Sorted Class Notes",
        "Grammar",
        "Adjective Endings",
    ]);
    assert_eq!(compact_path(&path, "/", 20), "G/SCN/G/A Endings");
}

#[test]
fn test_compact_path_fully_compact() {
    let path = path_of(&[
        "German.org",
        "Sorted Class Notes",
        "Grammar",
        "Adjective Endings",
    ]);
    assert_eq!(compact_path(&path, "/", 10), "G/SCN/G/AE");
}

#[test]
fn test_compact_title_plenty_of_space() {
    let title = "The University of Sheffield";
    assert_eq!(compact_title(title, 40), "The University of Sheffield");
}

#[test]
fn test_compact_title_just_enough_space() {
    let title = "The University of Sheffield";
    assert_eq!(compact_title(title, 27), "The University of Sheffield");
}

#[test]
fn test_compact_title_less_space() {
    let title = "The University of Sheffield";
    assert_eq!(compact_title(title, 20), "TU of Sheffield");
}

#[test]
fn test_compact_title_fully_compact() {
    let title = "The University of Sheffield";
    assert_eq!(compact_title(title, 5), "TUoS");
}

#[test]
fn test_grapheme_len() {
    let title = "Thé Ünivęrsïty ôf ẞheƒƒiėld";
    assert_eq!(grapheme_len(title), 27);
}

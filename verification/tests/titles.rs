use quizcrawler::console::util::{compact_title, compact_words, join, merge_words, render_titlebar};

fn table(title: &str, widest: usize) -> String {
    let mut result = String::new();
    for i in (0..=widest).rev() {
        result += &format!("{}: {}\n", i, compact_title(title, i));
    }
    result
}

#[test]
fn test_compact_title_snapshot() {
    let title = "The University of Sheffield";
    let mut expected = String::new();
    for i in (27..=30).rev() {
        expected += &format!("{}: The University of Sheffield\n", i);
    }
    for i in (25..=26).rev() {
        expected += &format!("{}: T University of Sheffield\n", i);
    }
    for i in (15..=24).rev() {
        expected += &format!("{}: TU of Sheffield\n", i);
    }
    for i in (13..=14).rev() {
        expected += &format!("{}: TUo Sheffield\n", i);
    }
    for i in (0..=12).rev() {
        expected += &format!("{}: TUoS\n", i);
    }
    assert_eq!(table(title, 30), expected);
}

#[test]
fn test_compact_title_unicode_snapshot() {
    let title = "Thé Ünivęrsïty ôf ẞheƒƒiėld";
    let mut expected = String::new();
    for i in (27..=30).rev() {
        expected += &format!("{}: Thé Ünivęrsïty ôf ẞheƒƒiėld\n", i);
    }
    for i in (25..=26).rev() {
        expected += &format!("{}: T Ünivęrsïty ôf ẞheƒƒiėld\n", i);
    }
    for i in (15..=24).rev() {
        expected += &format!("{}: TÜ ôf ẞheƒƒiėld\n", i);
    }
    for i in (13..=14).rev() {
        expected += &format!("{}: TÜô ẞheƒƒiėld\n", i);
    }
    for i in (0..=12).rev() {
        expected += &format!("{}: TÜôẞ\n", i);
    }
    assert_eq!(table(title, 30), expected);
}

#[test]
fn test_compact_title_symbols_snapshot() {
    let title = "/The Invasion of the Tearling/ by Erika Johansen";
    let steps = [
        (48, 50, "/The Invasion of the Tearling/ by Erika Johansen"),
        (46, 47, "/T Invasion of the Tearling/ by Erika Johansen"),
        (38, 45, "/TI of the Tearling/ by Erika Johansen"),
        (36, 37, "/TIo the Tearling/ by Erika Johansen"),
        (33, 35, "/TIot Tearling/ by Erika Johansen"),
        (25, 32, "/TIotT/ by Erika Johansen"),
        (23, 24, "/TIotT/b Erika Johansen"),
        (18, 22, "/TIotT/bE Johansen"),
        (0, 17, "/TIotT/bEJ"),
    ];
    let mut expected = String::new();
    for (lowest, highest, text) in steps {
        for i in (lowest..=highest).rev() {
            expected += &format!("{}: {}\n", i, text);
        }
    }
    assert_eq!(table(title, 50), expected);
}

fn texts(words: &[&str]) -> Vec<String> {
    words.iter().map(|word| word.to_string()).collect()
}

#[test]
fn merge_words_puts_white_space_in_front() {
    let chunks = texts(&["The", " ", "quick", "  ", "fox", " "]);
    assert_eq!(
        merge_words(&chunks),
        texts(&["The", " quick", "  fox", " "])
    );
    assert_eq!(merge_words(&texts(&[" ", "\t", "x"])), texts(&[" ", "\tx"]));
    assert!(merge_words(&Vec::new()).is_empty());
}

#[test]
fn compact_words_gives_way_from_the_left() {
    let words = texts(&["The", " University", " of", " Sheffield"]);
    assert_eq!(compact_words(&words, 27), "The University of Sheffield");
    assert_eq!(compact_words(&words, 26), "T University of Sheffield");
    assert_eq!(compact_words(&words, 0), "TUoS");
    assert_eq!(compact_words(&texts(&["   ", " a"]), 0), "a");
    assert_eq!(compact_words(&Vec::new(), 3), "");
}

#[test]
fn compact_title_counts_graphemes_not_characters() {
    let title = "e\u{301}e\u{301} ab";
    assert_eq!(compact_title(title, 5), title);
    assert_eq!(compact_title(title, 4), "e\u{301} ab");
    assert_eq!(compact_title(title, 0), "e\u{301}a");
}

#[test]
fn join_puts_the_separator_between() {
    assert_eq!(join(&texts(&["a", "b", "c"]), " > "), "a > b > c");
    assert_eq!(join(&texts(&["a"]), "/"), "a");
    assert_eq!(join(&Vec::new(), "/"), "");
    assert_eq!(join(&texts(&["", ""]), "/"), "/");
}

#[test]
fn render_titlebar_pads_to_the_width() {
    assert_eq!(
        render_titlebar("ab".to_string(), "-", "cd".to_string(), 10),
        "ab----cd"
    );
    assert_eq!(
        render_titlebar("ab".to_string(), "-", "cd".to_string(), 7),
        "ab-cd"
    );
    assert_eq!(
        render_titlebar("ab".to_string(), "-", "cd".to_string(), 0),
        "ab-cd"
    );
    assert_eq!(
        render_titlebar(String::new(), "=+", String::new(), 4),
        "=+=+"
    );
}

use quizcrawler::crawler::data::{ParseError, ReflowStrategy};
use quizcrawler::crawler::util::{reflow_string, replace_all};

const DATA_STR: &'static str = r#"*verb*
   1) to make something (such as a colour or a painting) less brilliant by
      covering with a thin coat of opaque or semiopaque colour applied with a
      nearly dry brush
   2) to soften the lines or colours of (a drawing) by rubbing lightly
"#;

#[test]
fn reflow_unflow() {
    let result = r#"*verb* 1) to make something (such as a colour or a painting) less brilliant by covering with a thin coat of opaque or semiopaque colour applied with a nearly dry brush 2) to soften the lines or colours of (a drawing) by rubbing lightly"#;
    assert_eq!(
        reflow_string(&ReflowStrategy::Unflow, DATA_STR),
        Ok(result.to_string())
    );
}

#[test]
fn reflow_unindent() {
    let result = r#"*verb*
1) to make something (such as a colour or a painting) less brilliant by
   covering with a thin coat of opaque or semiopaque colour applied with a
   nearly dry brush
2) to soften the lines or colours of (a drawing) by rubbing lightly"#;
    assert_eq!(
        reflow_string(&ReflowStrategy::Unindent, DATA_STR),
        Ok(result.to_string())
    )
}

#[test]
fn reflow_preserve() {
    assert_eq!(
        reflow_string(&ReflowStrategy::Preserve, DATA_STR),
        Ok(DATA_STR.to_string())
    );
}

#[test]
fn reflow_unindent_without_line_break() {
    assert_eq!(
        reflow_string(&ReflowStrategy::Unindent, "  one line  "),
        Ok("one line".to_string())
    );
}

#[test]
fn replace_all_replaces_each_match() {
    assert_eq!(replace_all("a+", "caaandaab", "o"), Ok("condob".to_string()));
    assert_eq!(replace_all("x", "caaandaab", "o"), Ok("caaandaab".to_string()));
}

#[test]
fn replace_all_steps_over_empty_matches() {
    assert_eq!(replace_all("b*", "abc", "-"), Ok("-a-c-".to_string()));
    assert_eq!(replace_all("é*", "aéc", "-"), Ok("-a-c-".to_string()));
}

#[test]
fn replace_all_rejects_a_bad_pattern() {
    assert_eq!(replace_all("(", "abc", "-"), Err(ParseError::BadPattern));
}

use vstd::prelude::*;

verus! {

/// What is done to the white space of a text that was cut out of the notes.
#[derive(Clone, Copy, Debug, PartialEq, Eq, Structural)]
pub enum ReflowStrategy {
    /// Lines are joined into one.
    Unflow,
    /// The indentation of the second line is taken off every line.
    Unindent,
    /// The text stays as it is.
    Preserve,
}

/// The grammar of a kind of notes: for each thing that can be found in them,
/// the regular expressions that it is made of.
#[derive(Debug)]
pub struct Crawler {
    pub title: String,
    pub exts: Vec<String>,
    pub flow: ReflowStrategy,
    pub section: Option<SectionConfig>,
    pub term: Option<TermConfig>,
    pub list: Option<ListConfig>,
    pub bullet: Option<BulletConfig>,
}

/// How a section is written: the character that its heading repeats, and
/// the expressions for its name and its body.
#[derive(Debug)]
pub struct SectionConfig {
    pub marker: String,
    pub name: String,
    pub body: String,
}

/// This struct holds the regex components needed to extract flashcards
#[derive(Debug)]
pub struct TermConfig {
    pub flipped: Option<bool>,
    pub leader: String,
    pub term: String,
    pub separator: String,
    pub definition: String,
    pub terminator: String,
}

/// How a numbered list item is written, with the notes that hang below it.
#[derive(Debug)]
pub struct ListConfig {
    pub leader: String,
    pub numerals: String,
    pub body: String,
    pub sub_leader: String,
    pub sub_terminator: String,
    pub terminator: String,
}

/// How a free-standing fact is written.
#[derive(Debug)]
pub struct BulletConfig {
    pub leader: String,
    pub body: String,
    pub terminator: String,
}

/// Why notes could not be read with a grammar.
#[derive(Clone, Copy, Debug, PartialEq, Eq, Structural)]
pub enum ParseError {
    /// An expression of the grammar is no regular expression.
    BadPattern,
    /// The search for an expression was given up.
    SearchFailed,
    /// A match does not lie in the text where it should.
    BadSpan,
    /// A match lacks a group that the grammar must capture.
    MissingGroup,
    /// The number of a list item is no number.
    BadNumber,
    /// The body of a section is no shorter than the text it was found in.
    Endless,
}

} // verus!

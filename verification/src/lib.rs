//! Quizzes out of notes: the questions with their mastery, the dispatcher
//! that picks what is asked next and tells how far a session has come, the
//! quiz in multiple choice, and the session that leads the user from the tree
//! of notes through questions and answers and back; beside them the grammar
//! by which notes are read, and the texts that the terminal shows.

pub mod console;
pub mod crawler;
pub mod engine;

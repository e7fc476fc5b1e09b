pub mod data;
pub mod parse;
pub mod regex;
pub mod util;

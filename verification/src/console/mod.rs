pub mod data;
pub mod render;
pub mod util;

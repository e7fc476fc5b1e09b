pub mod data;
pub mod dispatch;
pub mod logic;
pub mod outline;
pub mod quiz;
pub mod random;
pub mod text;

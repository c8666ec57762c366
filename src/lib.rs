pub mod app;
pub mod calc;
pub mod literal;
pub mod text;

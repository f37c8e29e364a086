pub mod args;
pub mod path;

pub mod civil;
pub mod date;
pub mod errors;
pub mod event;
pub mod calendar;
pub mod merge;
pub mod periodic;
pub mod text;

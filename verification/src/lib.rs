pub mod account;
pub mod amount;
pub mod book;
pub mod dates;
pub mod decimal;
pub mod engine;
pub mod event;
pub mod laws;
pub mod log;
pub mod replay;
pub mod settle;
pub mod text;

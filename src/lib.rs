//! Converts bank transaction exports into normalized accounting lines,
//! classifying each line's payee and category by keyword matching.

pub mod text;
pub mod classify;
pub mod amount;
pub mod config;
pub mod date;
pub mod homebank;
pub mod bawag;

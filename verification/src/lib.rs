//! A small calendar library: a date-expression language with a parser and a
//! matcher, evaluated against proleptic Gregorian civil dates.

pub mod date;
pub mod datecalc;
pub mod months;
pub mod preferences;
pub mod text;
pub mod utils;

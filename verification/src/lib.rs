pub mod currency;
pub mod error;
pub mod format;
pub mod parse;
pub mod rules;
pub mod strategy;

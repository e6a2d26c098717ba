//! Toaq dictionary tooling: grapheme segmentation, dictionary ordering,
//! entry validation and de-duplication, tone keys, the features and folds
//! that metadata guessing learns from, and the font list of the web page.

pub mod text;
pub mod patterns;
pub mod letters;
pub mod toadua;
pub mod collation;
pub mod order_laws;
pub mod dedup;
pub mod readable;
pub mod toakao;
pub mod data;
pub mod guess_metadata;
pub mod features;
pub mod heuristics;
pub mod folds;
pub mod noto;
pub mod tone_sort;
pub mod token_counts;
pub mod balance;
pub mod tally;
pub mod numbering;

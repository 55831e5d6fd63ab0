//! A lightweight Japanese input method core: incremental romaji-to-hiragana
//! composition, a dictionary with a minimum-cost search over the reading
//! lattice and the candidate list built on it, the JSON answers for native
//! platform adapters, and the logic of the offline evaluation tool.

pub mod adapter;
pub mod converter;
pub mod evaluation;
pub mod json;
pub mod lattice;
pub mod order;
pub mod ordering;
pub mod romaji;
pub mod text;

//! Review scheduling for vocabulary flashcards.

pub mod card;
pub mod chance;
pub mod distance;
pub mod embedding;
pub mod favorite;
pub mod frequency;
pub mod laws;
pub mod paths;
pub mod picker;
pub mod related;
pub mod scheduler;
pub mod spaced_repetition;
pub mod store;
pub mod text;

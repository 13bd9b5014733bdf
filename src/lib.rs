//! Tells a Plains Cree word from an English one, with a model of the
//! character bigrams of each language.

pub mod bignat;
pub mod laws;
pub mod model;
pub mod normalize;
pub mod token;

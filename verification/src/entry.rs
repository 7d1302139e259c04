//! Structured dictionary entries.
//!
//! - [`grammar`]: the grammar as a state machine over characters.
//! - [`state`], [`part`]: the executable machine and the parser on top.
//! - [`term`], [`render`], [`order`]: terms, their display and order.
//! - [`laws`], [`nesting`], [`reading`], [`redisplay`]: what holds of the
//!   grammar and of the display for every text.

pub mod annotation;
pub mod gender;
pub mod grammar;
pub mod laws;
pub mod nesting;
pub mod order;
pub mod part;
pub mod placeholder;
pub mod reading;
pub mod redisplay;
pub mod render;
pub mod state;
pub mod term;

pub use annotation::{Annotation, AnnotationKind};
pub use gender::Gender;
pub use grammar::GrammarError;
pub use part::{Parser, Part};
pub use placeholder::{Case, Placeholder};
pub use term::Term;

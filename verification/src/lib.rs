//! A spaced-repetition scheduler for flashcard-style study items.
//!
//! The core is a scheduling engine: a two-tier queue (a time-ordered primary
//! queue plus a short-term repeat queue) coupled to a per-card
//! difficulty/interval model in the SuperMemo-2 family. Time is supplied
//! explicitly by the caller as seconds, so the engine is deterministic;
//! persistence and presentation are left to the surrounding program.

pub mod card;
pub mod interval;
pub mod queue;
pub mod ledger;
pub mod supermemo;

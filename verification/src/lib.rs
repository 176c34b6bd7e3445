//! A typing trainer's core: prompts, the live session state machine, the
//! layout of a session for display, and the analysis of what was typed.

pub mod text;
pub mod prompt;
pub mod session;
pub mod layout;
pub mod display;
pub mod analysis;
pub mod metrics;
pub mod scheduler;
pub mod model;
pub mod compose;
pub mod corpus;
pub mod store;

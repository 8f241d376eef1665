//! A small embeddable finite-state-machine engine.
//!
//! A caller declares named states and directed transitions in a [`fsm::Setup`],
//! builds a [`fsm::StateMachine`] from it, and then drives that machine by
//! requesting transitions to destination states by ID.

pub mod fsm;

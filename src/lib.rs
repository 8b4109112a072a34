//! Event log and validation core of a shared globe scene.
//!
//! Clients place balls on a sphere by appending insert and delete events to
//! a per-globe log. The current scene is the fold of that log; an event is
//! admitted only if the scene it leads to keeps the placement rules.

pub mod ball;
pub mod dto;
pub mod errors;
pub mod event_log;
pub mod geometry;
pub mod globe_id;
pub mod keys;
pub mod projection;
pub mod text;
pub mod validation;

//! The persisted event: the insertion or deletion of one ball.

use vstd::prelude::*;
use crate::geometry::{ImpulseEntity, PositionEntity};

verus! {

/// One event of a globe's log.
///
/// An insert creates the ball `uuid`; a delete (tombstone) removes it and
/// carries no other data. `is_fixed` marks a ball anchored to the surface;
/// a ball that is not fixed is launched with `impulse`.
pub struct BallEntity {
    pub is_fixed: bool,
    pub is_insert: bool,
    pub uuid: u128,
    pub color: Option<String>,
    pub position: Option<PositionEntity>,
    pub impulse: Option<ImpulseEntity>,
}

impl BallEntity {
    /// A bare event for `uuid`: not fixed, with no color, position or
    /// impulse. With `is_insert` false it is the tombstone of `uuid`.
    pub fn new(uuid: u128, is_insert: bool) -> (r: BallEntity)
        ensures
            r == (BallEntity {
                is_fixed: false,
                is_insert,
                uuid,
                color: None,
                position: None,
                impulse: None,
            }),
    {
        BallEntity { is_fixed: false, is_insert, uuid, color: None, position: None, impulse: None }
    }

    /// A copy of this event.
    pub fn duplicate(&self) -> (r: BallEntity)
        ensures
            r == *self,
    {
        let color = match &self.color {
            Some(c) => Some(c.clone()),
            None => None,
        };
        BallEntity {
            is_fixed: self.is_fixed,
            is_insert: self.is_insert,
            uuid: self.uuid,
            color,
            position: self.position,
            impulse: self.impulse,
        }
    }
}

} // verus!

//! The validation gate: whether an insert or a delete may be appended to a
//! globe's log, given the balls alive in it.

use vstd::prelude::*;
use std::collections::HashMap;
use crate::ball::BallEntity;
use crate::errors::{MyError, Rejection};
use crate::geometry::{
    is_magnitude_in_bounds, is_tangential, is_valid_distance_from_others, magnitude_in_bounds,
    on_surface, tangential, well_separated, Globe, ImpulseEntity, PositionEntity, OUTER_RADIUS,
};
use crate::projection::{fixed_positions, is_fixed_position};
use crate::globe_id::{globe_id_shape, GLOBE_ID_PATTERN};

verus! {

broadcast use vstd::std_specs::hash::group_hash_axioms;

/// The accepted color format: `#` and eight hexadecimal digits.
pub const COLOR_PATTERN: &'static str = "^#([A-Fa-f0-9]{8})$";

/// `c` is an ASCII hexadecimal digit, of either case.
pub open spec fn is_hex_digit(c: char) -> bool {
    (48 <= c as u32 <= 57) || (65 <= c as u32 <= 70) || (97 <= c as u32 <= 102)
}

/// `color` has the accepted color format: the whole text is `#` and eight
/// hexadecimal digits.
pub open spec fn color_accepted(color: Seq<char>) -> bool {
    &&& color.len() == 9
    &&& color[0] == '#'
    &&& forall|i: int| 1 <= i < 9 ==> is_hex_digit(#[trigger] color[i])
}

/// Relies on `regex::Regex::new` and `Regex::is_match` for the library's two
/// fixed patterns. Both compile; `^` and `$` anchor the match at the start
/// and the end of the whole text, and the classes are the listed ASCII
/// characters. So `COLOR_PATTERN` accepts `#` and eight hexadecimal digits,
/// and `GLOBE_ID_PATTERN` accepts consonant, vowel, consonant, vowel, two
/// digits, consonant, vowel, consonant, vowel, all lower-case ASCII.
#[verifier::external_body]
pub(crate) fn pattern_matches(pattern: &str, text: &str) -> (r: bool)
    requires
        pattern@ == COLOR_PATTERN@ || pattern@ == GLOBE_ID_PATTERN@,
    ensures
        pattern@ == COLOR_PATTERN@ ==> r == color_accepted(text@),
        pattern@ == GLOBE_ID_PATTERN@ ==> r == globe_id_shape(text@),
{
    match regex::Regex::new(pattern) {
        Ok(re) => re.is_match(text),
        Err(_) => false,
    }
}

/// The candidate has a color, and it has the accepted format.
pub open spec fn color_ok(ball: BallEntity) -> bool {
    match ball.color {
        Some(c) => color_accepted(c@),
        None => false,
    }
}

/// Every alive fixed ball of `alive` is well separated from `p`.
pub open spec fn clear_of_fixed(alive: Map<u128, BallEntity>, p: PositionEntity) -> bool {
    forall|q: PositionEntity| is_fixed_position(alive, q) ==> #[trigger] well_separated(p, q)
}

/// The verdict on inserting `ball` where `alive` are the alive balls, with
/// `color_ok` telling whether its color has the accepted format. The checks
/// run in this order and the first that fails decides.
pub open spec fn insert_verdict(ball: BallEntity, alive: Map<u128, BallEntity>, color_ok: bool) -> Result<
    (),
    Rejection,
> {
    if ball.is_fixed && ball.impulse is Some {
        Err(Rejection::FixedWithImpulse)
    } else if ball.position is None {
        Err(Rejection::MissingPosition)
    } else if !on_surface(ball.position->0) {
        Err(Rejection::NotOnSurface)
    } else if ball.is_fixed && !clear_of_fixed(alive, ball.position->0) {
        Err(Rejection::TooClose)
    } else if alive.contains_key(ball.uuid) {
        Err(Rejection::UuidInUse)
    } else if ball.color is None {
        Err(Rejection::MissingColor)
    } else if !color_ok {
        Err(Rejection::InvalidColor(ball.color->0))
    } else if !ball.is_fixed && ball.impulse is None {
        Err(Rejection::ImpulseRequired)
    } else if !ball.is_fixed && !tangential(ball.position->0, ball.impulse->0) {
        Err(Rejection::NotTangential)
    } else if !ball.is_fixed && !magnitude_in_bounds(ball.impulse->0) {
        Err(Rejection::MagnitudeOutOfBounds)
    } else {
        Ok(())
    }
}

/// Every accepted insert places its ball on the surface:
/// `SPHERE_RADIUS <= |position| <= OUTER_RADIUS`.
pub proof fn lemma_accepted_insert_on_surface(
    ball: BallEntity,
    alive: Map<u128, BallEntity>,
    color_ok: bool,
)
    requires
        insert_verdict(ball, alive, color_ok) is Ok,
    ensures
        ball.position is Some,
        on_surface(ball.position->0),
{
}

/// The verdict on deleting `uuid` where `alive` are the alive balls.
pub open spec fn delete_verdict(uuid: u128, alive: Map<u128, BallEntity>) -> Result<(), Rejection> {
    if alive.contains_key(uuid) {
        Ok(())
    } else {
        Err(Rejection::UuidNotFound)
    }
}

/// `r` is the outcome that `verdict` calls for.
pub open spec fn reported(r: Result<(), MyError>, verdict: Result<(), Rejection>) -> bool {
    match verdict {
        Ok(()) => r is Ok,
        Err(why) => r matches Err(e) && e.reports(why),
    }
}

/// Decides an insert of `ball` where `alive` are the alive balls;
/// `color_ok` tells whether the ball's color has the accepted format.
pub fn decide_insert(ball: &BallEntity, alive: &HashMap<u128, BallEntity>, color_ok: bool) -> (r:
    Result<(), Rejection>)
    ensures
        r == insert_verdict(*ball, alive@, color_ok),
{
    if ball.is_fixed && ball.impulse.is_some() {
        return Err(Rejection::FixedWithImpulse);
    }
    let position = match &ball.position {
        Some(p) => p,
        None => {
            return Err(Rejection::MissingPosition);
        },
    };
    if !Globe::contains(position) {
        return Err(Rejection::NotOnSurface);
    }
    if ball.is_fixed {
        let others = fixed_positions(alive);
        if !is_valid_distance_from_others(position, &others) {
            proof {
                let j = choose|j: int| 0 <= j < others@.len() && !well_separated(*position, others@[j]);
                assert(others@.contains(others@[j]));
            }
            return Err(Rejection::TooClose);
        }
        proof {
            assert forall|q: PositionEntity| is_fixed_position(alive@, q) implies #[trigger] well_separated(
                *position,
                q,
            ) by {
                let j = choose|j: int| 0 <= j < others@.len() && others@[j] == q;
            }
        }
    }
    if alive.contains_key(&ball.uuid) {
        return Err(Rejection::UuidInUse);
    }
    let color = match &ball.color {
        Some(c) => c,
        None => {
            return Err(Rejection::MissingColor);
        },
    };
    if !color_ok {
        return Err(Rejection::InvalidColor(color.clone()));
    }
    if !ball.is_fixed {
        let impulse = match &ball.impulse {
            Some(i) => i,
            None => {
                return Err(Rejection::ImpulseRequired);
            },
        };
        if !is_tangential(position, impulse) {
            return Err(Rejection::NotTangential);
        }
        if !is_magnitude_in_bounds(impulse) {
            return Err(Rejection::MagnitudeOutOfBounds);
        }
    }
    Ok(())
}

/// Decides a delete of `uuid` where `alive` are the alive balls.
pub fn decide_delete(uuid: u128, alive: &HashMap<u128, BallEntity>) -> (r: Result<(), Rejection>)
    ensures
        r == delete_verdict(uuid, alive@),
{
    if alive.contains_key(&uuid) {
        Ok(())
    } else {
        Err(Rejection::UuidNotFound)
    }
}

/// Checks that `impulse` is tangential to the globe at `position`, which
/// lies no farther than `OUTER_RADIUS` from the centre.
pub fn validate_impulse_direction(position: &PositionEntity, impulse: &ImpulseEntity) -> (r: Result<
    (),
    MyError,
>)
    requires
        position.norm_sq() <= OUTER_RADIUS * OUTER_RADIUS,
    ensures
        r is Ok == tangential(*position, *impulse),
        r matches Err(e) ==> e.reports(Rejection::NotTangential),
{
    if is_tangential(position, impulse) {
        Ok(())
    } else {
        Err(Rejection::NotTangential.into_error())
    }
}

/// Checks that the length of `impulse` is within bounds.
pub fn validate_impulse_magnitude(impulse: &ImpulseEntity) -> (r: Result<(), MyError>)
    ensures
        r is Ok == magnitude_in_bounds(*impulse),
        r matches Err(e) ==> e.reports(Rejection::MagnitudeOutOfBounds),
{
    if is_magnitude_in_bounds(impulse) {
        Ok(())
    } else {
        Err(Rejection::MagnitudeOutOfBounds.into_error())
    }
}

/// A store of globe logs that can project a globe's alive balls.
pub trait KeyValueStoreTrait {
    /// What the store holds for `globe_id`: its alive balls by uuid, or the
    /// failure met in reading them. A store verified with this library
    /// defines it; of the default nothing is known.
    closed spec fn alive_view(&self, globe_id: Seq<char>) -> Result<Map<u128, BallEntity>, MyError> {
        arbitrary()
    }

    /// The balls alive in `globe_id`, by uuid, or the storage failure.
    fn get_alive_objects_map(&self, globe_id: &str) -> (r: Result<HashMap<u128, BallEntity>, MyError>)
        ensures
            store_answer(r, self.alive_view(globe_id@)),
    ;
}

/// `r` is the answer that `view` describes: the same alive balls, or the
/// same failure.
pub open spec fn store_answer(
    r: Result<HashMap<u128, BallEntity>, MyError>,
    view: Result<Map<u128, BallEntity>, MyError>,
) -> bool {
    match view {
        Ok(a) => r matches Ok(m) && m@ == a,
        Err(e) => r == Err::<HashMap<u128, BallEntity>, MyError>(e),
    }
}

/// The validation gate.
pub struct ValidationService {}

impl ValidationService {
    pub fn new() -> ValidationService {
        ValidationService {}
    }

    /// Whether `color` has the accepted color format.
    pub fn validate_color(color: &str) -> (r: bool)
        ensures
            r == color_accepted(color@),
    {
        pattern_matches(COLOR_PATTERN, color)
    }

    /// Checks an insert of `ball` where `alive` are the alive balls.
    pub fn check_insert(&self, ball: &BallEntity, alive: &HashMap<u128, BallEntity>) -> (r: Result<
        (),
        MyError,
    >)
        ensures
            reported(r, insert_verdict(*ball, alive@, color_ok(*ball))),
    {
        let color_ok = match &ball.color {
            Some(c) => ValidationService::validate_color(c.as_str()),
            None => false,
        };
        match decide_insert(ball, alive, color_ok) {
            Ok(()) => Ok(()),
            Err(why) => Err(why.into_error()),
        }
    }

    /// Checks an insert of `ball_entity` into the globe `globe_id` of
    /// `key_value_store`.
    ///
    /// A fixed ball with an impulse is refused before the store is read.
    /// Otherwise a storage failure is returned as it came, and else the
    /// result is that of `check_insert` on the balls that the store reported
    /// alive.
    pub fn validate_insert<T: KeyValueStoreTrait>(
        &self,
        ball_entity: &BallEntity,
        globe_id: &str,
        key_value_store: &T,
    ) -> (r: Result<(), MyError>)
        ensures
            ball_entity.is_fixed && ball_entity.impulse is Some ==> (r matches Err(e) && e.reports(
                Rejection::FixedWithImpulse,
            )),
            !(ball_entity.is_fixed && ball_entity.impulse is Some) ==> match key_value_store.alive_view(
                globe_id@,
            ) {
                Ok(a) => reported(r, insert_verdict(*ball_entity, a, color_ok(*ball_entity))),
                Err(e) => r == Err::<(), MyError>(e),
            },
            r is Ok ==> ball_entity.position is Some && on_surface(ball_entity.position->0)
                && color_ok(*ball_entity) && (!ball_entity.is_fixed ==> ball_entity.impulse is Some
                && tangential(ball_entity.position->0, ball_entity.impulse->0) && magnitude_in_bounds(
                ball_entity.impulse->0,
            )),
    {
        if ball_entity.is_fixed && ball_entity.impulse.is_some() {
            return Err(Rejection::FixedWithImpulse.into_error());
        }
        match key_value_store.get_alive_objects_map(globe_id) {
            Err(e) => Err(e),
            Ok(alive) => self.check_insert(ball_entity, &alive),
        }
    }

    /// Checks a delete of `uuid_to_delete` from the globe `globe_id` of
    /// `key_value_store`: a storage failure as it came, else `UuidNotFound`
    /// unless the store reported the ball alive.
    pub fn validate_delete<T: KeyValueStoreTrait>(
        uuid_to_delete: u128,
        globe_id: &str,
        key_value_store: &T,
    ) -> (r: Result<(), MyError>)
        ensures
            match key_value_store.alive_view(globe_id@) {
                Ok(a) => reported(r, delete_verdict(uuid_to_delete, a)),
                Err(e) => r == Err::<(), MyError>(e),
            },
    {
        match key_value_store.get_alive_objects_map(globe_id) {
            Err(e) => Err(e),
            Ok(alive) => match decide_delete(uuid_to_delete, &alive) {
                Ok(()) => Ok(()),
                Err(why) => Err(why.into_error()),
            },
        }
    }
}

} // verus!

//! The error taxonomy and the reasons for which an event is refused.

use vstd::prelude::*;
use vstd::string::StringExecFns;

verus! {

/// Errors reported to callers.
///
/// Validation and serialization errors are caused by the client; storage and
/// internal errors by the server.
pub enum MyError {
    NotFound,
    DatabaseError(String),
    ValidationError(String),
    InternalServerError(String),
    JsonError(String),
}

/// Why the validation gate refuses an event.
pub enum Rejection {
    FixedWithImpulse,
    MissingPosition,
    NotOnSurface,
    TooClose,
    UuidInUse,
    InvalidColor(String),
    MissingColor,
    NotTangential,
    MagnitudeOutOfBounds,
    ImpulseRequired,
    UuidNotFound,
}

impl Rejection {
    /// The human-readable message of this rejection.
    pub open spec fn text(self) -> Seq<char> {
        match self {
            Rejection::FixedWithImpulse => "Velocity should be None for fixed objects."@,
            Rejection::MissingPosition => "Position is missing."@,
            Rejection::NotOnSurface => "Ball is not on surface of sphere."@,
            Rejection::TooClose => "Ball is too close to other fixed objects."@,
            Rejection::UuidInUse => "Object UUID is already in use."@,
            Rejection::InvalidColor(c) => "Invalid color value provided: "@ + c@,
            Rejection::MissingColor => "Color is required for insertion."@,
            Rejection::NotTangential => "Impulse direction is not tangential to the globe's surface."@,
            Rejection::MagnitudeOutOfBounds => "Impulse magnitude is out of acceptable bounds."@,
            Rejection::ImpulseRequired => "Impulse is required for dynamic objects."@,
            Rejection::UuidNotFound => "Cannot delete: UUID not found."@,
        }
    }

    /// The message of this rejection, as text.
    pub fn message(&self) -> (r: String)
        ensures
            r@ == self.text(),
    {
        match self {
            Rejection::FixedWithImpulse => String::from_str("Velocity should be None for fixed objects."),
            Rejection::MissingPosition => String::from_str("Position is missing."),
            Rejection::NotOnSurface => String::from_str("Ball is not on surface of sphere."),
            Rejection::TooClose => String::from_str("Ball is too close to other fixed objects."),
            Rejection::UuidInUse => String::from_str("Object UUID is already in use."),
            Rejection::InvalidColor(c) => {
                let prefix = String::from_str("Invalid color value provided: ");
                prefix.concat(c.as_str())
            },
            Rejection::MissingColor => String::from_str("Color is required for insertion."),
            Rejection::NotTangential => String::from_str(
                "Impulse direction is not tangential to the globe's surface.",
            ),
            Rejection::MagnitudeOutOfBounds => String::from_str(
                "Impulse magnitude is out of acceptable bounds.",
            ),
            Rejection::ImpulseRequired => String::from_str("Impulse is required for dynamic objects."),
            Rejection::UuidNotFound => String::from_str("Cannot delete: UUID not found."),
        }
    }

    /// The validation error that reports this rejection.
    pub fn into_error(self) -> (r: MyError)
        ensures
            r.reports(self),
    {
        MyError::ValidationError(self.message())
    }
}

impl MyError {
    /// This error is the validation error carrying `why`'s message.
    pub open spec fn reports(self, why: Rejection) -> bool {
        self matches MyError::ValidationError(m) && m@ == why.text()
    }

    /// This error is the validation error carrying `text`.
    pub open spec fn is_validation(self, text: Seq<char>) -> bool {
        self matches MyError::ValidationError(m) && m@ == text
    }
}

} // verus!

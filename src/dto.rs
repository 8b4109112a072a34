//! The bodies of the service's answers.

use vstd::prelude::*;
use vstd::string::StringExecFns;

verus! {

/// The answer to an accepted insert.
pub struct InsertBallResponseDto {
    pub message: String,
    pub globe_id: String,
    pub transaction_id: String,
}

impl InsertBallResponseDto {
    /// The acknowledgment of the insert that got id `transaction_id` in
    /// `globe_id`.
    pub fn inserted(globe_id: String, transaction_id: String) -> (r: InsertBallResponseDto)
        ensures
            r.message@ == "Successfully inserted."@,
            r.globe_id == globe_id,
            r.transaction_id == transaction_id,
    {
        InsertBallResponseDto {
            message: String::from_str("Successfully inserted."),
            globe_id,
            transaction_id,
        }
    }
}

/// The answer carrying a newly minted globe id.
pub struct GetNewGlobeIdResponse {
    pub new_globe_id: String,
}

} // verus!

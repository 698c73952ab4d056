//! The error a failed request reports to its caller.
use vstd::prelude::*;

verus! {

/// mongodb's error type, held opaque: what a failed store operation returns.
#[verifier::external_type_specification]
#[verifier::external_body]
pub struct ExMongoError(mongodb::error::Error);

/// Relies on the `Display` impl of mongodb's `Error`: a text that describes
/// the failure. Nothing is known of its wording here.
#[verifier::external_body]
fn mongo_error_text(err: &mongodb::error::Error) -> (text: String) {
    err.to_string()
}

/// The message reported for a store failure described by `detail`.
pub open spec fn persistence_message(detail: Seq<char>) -> Seq<char> {
    "MongoDB error: "@ + detail
}

/// A request failure, with the message reported to the caller.
#[derive(Debug)]
pub struct CustomError {
    pub message: String,
}

impl CustomError {
    /// The failure of a store operation described by `detail`.
    pub fn persistence(detail: &str) -> (r: CustomError)
        ensures
            r.message@ == persistence_message(detail@),
    {
        let message = "MongoDB error: ".to_owned().concat(detail);
        CustomError { message }
    }

    /// The failure of a store operation that mongodb reported as `err`.
    pub fn from_mongo_error(err: mongodb::error::Error) -> (r: CustomError)
        ensures
            exists|detail: Seq<char>| r.message@ == persistence_message(detail),
    {
        let detail = mongo_error_text(&err);
        CustomError::persistence(detail.as_str())
    }
}

} // verus!

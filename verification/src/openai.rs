//! The decision half of the upload step: which API key a run uses, if any.
//! Reading the environment and performing the upload itself are the
//! caller's business; it hands the environment's value in and acts on the
//! decision that comes back.

use vstd::prelude::*;

verus! {

/// No API key was given and none stood in the environment.
#[derive(Debug)]
pub struct ApiKeyError {}

impl ApiKeyError {
    /// The text of this failure.
    pub fn message(&self) -> (s: String)
        ensures
            s@ == "API key not specified and not found in environment."@,
    {
        String::from_str("API key not specified and not found in environment.")
    }
}

/// Decides the API key for the upload step. No upload option means no
/// upload (`Ok(None)`); an explicit key wins; the bare upload flag falls
/// back to the key the caller read from the environment, and fails exactly
/// when the environment held none.
pub fn resolve_api_key(upload_option: &Option<Option<String>>, env_key: Option<String>) -> (r:
    Result<Option<String>, ApiKeyError>)
    ensures
        match *upload_option {
            None => r matches Ok(k) && k is None,
            Some(Some(ref key)) => r matches Ok(k) && k matches Some(got) && got@ == key@,
            Some(None) => match env_key {
                Some(ref key) => r matches Ok(k) && k matches Some(got) && got@ == key@,
                None => r is Err,
            },
        },
{
    match upload_option {
        None => Ok(None),
        Some(Some(key)) => Ok(Some(key.clone())),
        Some(None) => match env_key {
            Some(key) => Ok(Some(key)),
            None => Err(ApiKeyError {}),
        },
    }
}

} // verus!

//! Errors that the session flow reports to its user.
use vstd::prelude::*;
use crate::text::append_str;

verus! {

/// Why a session could not be obtained or handed over.
#[derive(Debug)]
pub enum CliError {
    ValidationError(String),
    NoMFA,
    NoCredentials,
    NoAccount,
}

/// The text shown to the user for `e`.
pub open spec fn message_of(e: &CliError) -> Seq<char> {
    match e {
        CliError::ValidationError(m) => "Validation error: "@ + m@,
        CliError::NoMFA => "No MFA device in user profile"@,
        CliError::NoCredentials => "No returned credentials"@,
        CliError::NoAccount => "No returned account"@,
    }
}

impl CliError {
    /// The text shown to the user for this error.
    pub fn message(&self) -> (r: String)
        ensures
            r@ == message_of(self),
    {
        match self {
            CliError::ValidationError(m) => {
                let mut r = "Validation error: ".to_owned();
                append_str(&mut r, m.as_str());
                r
            },
            CliError::NoMFA => "No MFA device in user profile".to_owned(),
            CliError::NoCredentials => "No returned credentials".to_owned(),
            CliError::NoAccount => "No returned account".to_owned(),
        }
    }
}

} // verus!

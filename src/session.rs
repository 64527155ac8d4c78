//! The decisions of one session request that do not need the identity provider.
use vstd::prelude::*;
use crate::error::CliError;
use crate::text::append_str;

verus! {

/// The prompt shown inside a session of `user` in `account`.
pub open spec fn prompt_text(user: Seq<char>, account: Seq<char>) -> Seq<char> {
    "AWS:"@ + user + "@"@ + account + " \\$ "@
}

/// The prompt shown inside a session of `user` in `account`: `AWS:{user}@{account} \$ `.
pub fn session_prompt(user: &str, account: &str) -> (r: String)
    ensures
        r@ == prompt_text(user@, account@),
{
    let mut r = "AWS:".to_owned();
    append_str(&mut r, user);
    append_str(&mut r, "@");
    append_str(&mut r, account);
    append_str(&mut r, " \\$ ");
    assert(r@ =~= prompt_text(user@, account@));
    r
}

/// The MFA device to authenticate with: the one the user named, else the first
/// one listed for the user, else `NoMFA`.
pub fn mfa_serial(arn: Option<String>, first_listed: Option<String>) -> (r: Result<
    String,
    CliError,
>)
    ensures
        match arn {
            Some(a) => r == Ok::<String, CliError>(a),
            None => match first_listed {
                Some(d) => r == Ok::<String, CliError>(d),
                None => r matches Err(CliError::NoMFA),
            },
        },
{
    match arn {
        Some(a) => Ok(a),
        None => match first_listed {
            Some(d) => Ok(d),
            None => Err(CliError::NoMFA),
        },
    }
}

} // verus!

//! Validation of the values a user supplies for a session.
use vstd::prelude::*;
use vstd::string::*;
use crate::error::CliError;
use crate::text::chars_of;

verus! {

/// Whether `char::is_numeric` holds of `c`: `c` is in one of Unicode's number categories.
pub uninterp spec fn is_numeric_char(c: char) -> bool;

/// Relies on `char::is_numeric`: whether `c` has a Unicode number category; among
/// ASCII characters these are exactly the digits.
#[verifier::external_body]
fn is_numeric(c: char) -> (r: bool)
    ensures
        r == is_numeric_char(c),
        (c as u32) < 128 ==> (r <==> '0' <= c <= '9'),
{
    c.is_numeric()
}

/// `s` is a well-formed MFA code: numeric characters only, six bytes long.
pub open spec fn is_mfa_code(s: &str) -> bool {
    &&& forall|i: int| 0 <= i < s@.len() ==> is_numeric_char(#[trigger] s@[i])
    &&& s.len() == 6
}

/// The error for a malformed MFA code.
pub open spec fn is_code_error(e: CliError) -> bool {
    e matches CliError::ValidationError(m) && m@ == "MFA code must be exactly 6 digits"@
}

/// Checks an MFA code: numeric characters only, and six bytes long.
pub fn parse_code(s: &str) -> (r: Result<String, CliError>)
    ensures
        match r {
            Ok(v) => is_mfa_code(s) && v@ == s@,
            Err(e) => !is_mfa_code(s) && is_code_error(e),
        },
{
    let cs = chars_of(s);
    let mut all_numeric = true;
    let mut k: usize = 0;
    while k < cs.len()
        invariant
            cs@ == s@,
            k <= cs.len(),
            all_numeric <==> forall|i: int| 0 <= i < k ==> is_numeric_char(#[trigger] s@[i]),
        decreases cs.len() - k,
    {
        if !is_numeric(cs[k]) {
            all_numeric = false;
        }
        k += 1;
    }
    if all_numeric && s.len() == 6 {
        Ok(s.to_owned())
    } else {
        Err(CliError::ValidationError("MFA code must be exactly 6 digits".to_owned()))
    }
}

} // verus!

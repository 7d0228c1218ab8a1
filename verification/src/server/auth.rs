//! Request data of the auth endpoints, and the login flow's decisions.

use vstd::prelude::*;

use crate::credentials::AuthError;

verus! {

/// Body of a signup request.
pub struct SignupRequestData {
    pub email: String,
    pub name: String,
    pub username: String,
    pub password: String,
}

/// Body of a signin request: the user names themself by username or email.
pub struct LoginRequestData {
    pub email: Option<String>,
    pub username: Option<String>,
    pub password: String,
}

/// The identifier a login looks the user up by: the username when present,
/// else the email; with neither, the login fails up front.
pub fn lookup_identifier(data: &LoginRequestData) -> (r: Result<&String, AuthError>)
    ensures
        ({
            match data.username {
                Some(u) => r matches Ok(s) && s@ == u@,
                None => match data.email {
                    Some(e) => r matches Ok(s) && s@ == e@,
                    None => r is Err,
                },
            }
        }),
{
    if let Some(username) = &data.username {
        Ok(username)
    } else if let Some(email) = &data.email {
        Ok(email)
    } else {
        Err(AuthError::Message("Missing email or username!".to_owned()))
    }
}

} // verus!

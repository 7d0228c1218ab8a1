//! Users and their credentials: identifiers, salted password hashes, and
//! the password check.
//!
//! Identifiers are the hyphenated text of UUIDs and instants are Unix
//! timestamps in seconds, so the values the logic reads are plain. The
//! hashing itself is delegated to the argon2 crate; its result is named
//! [`argon2_digest`], and the password check is stated exactly over that
//! name.

use vstd::prelude::*;

use crate::task::now_timestamp;

verus! {

#[verifier::external_type_specification]
#[verifier::external_body]
pub struct ExPasswordHashError(argon2::password_hash::Error);

/// Errors of the credential operations.
#[derive(Debug)]
pub enum AuthError {
    /// A password-hashing step failed.
    Argon2Hasher(argon2::password_hash::Error),
    /// Any other failure, described in text.
    Message(String),
}

/// The PHC string that hashing `password` with the default argon2 parameters
/// and the salt written as `salt_b64` produces. It depends on the two
/// arguments alone.
pub uninterp spec fn argon2_digest(password: Seq<u8>, salt_b64: Seq<char>) -> Seq<char>;

/// Relies on `argon2::Argon2::hash_password` with the default parameters:
/// the resulting PHC string is a function of the password bytes and the salt
/// text alone, here named [`argon2_digest`]. The salt text is parsed by
/// `SaltString::from_b64`, which fails on text that is not a valid salt.
#[verifier::external_body]
fn argon2_hash(password: &[u8], salt_b64: &str) -> (r: Result<
    String,
    argon2::password_hash::Error,
>)
    ensures
        r matches Ok(h) ==> h@ == argon2_digest(password@, salt_b64@),
{
    let salt = argon2::password_hash::SaltString::from_b64(salt_b64)?;
    let argon2 = argon2::Argon2::default();
    let hash = argon2::PasswordHasher::hash_password(&argon2, password, &salt)?;
    Ok(hash.to_string())
}

/// Relies on `uuid::Uuid::new_v4` for 16 random bytes and on
/// `SaltString::encode_b64` to write them as salt text; nothing is promised
/// of the value. Sixteen bytes are always within the encodable length, so
/// in practice the call does not fail.
#[verifier::external_body]
fn generate_salt_b64() -> Result<String, argon2::password_hash::Error> {
    let bytes = uuid::Uuid::new_v4();
    let salt = argon2::password_hash::SaltString::encode_b64(bytes.as_bytes())?;
    Ok(salt.as_str().to_owned())
}

/// Relies on `uuid::Uuid::new_v4` and `Uuid::to_string`: a fresh random
/// identifier whose hyphenated text is always 36 characters; nothing else is
/// promised of the value.
#[verifier::external_body]
fn new_uuid_string() -> (s: String)
    ensures
        s@.len() == 36,
{
    uuid::Uuid::new_v4().to_string()
}

/// A user of the auth layer; `id` is the hyphenated text of a UUID.
pub struct User {
    pub id: String,
    pub name: String,
}

impl User {
    /// A new user under a fresh random identifier.
    pub fn new(name: &str) -> (u: User)
        ensures
            u.name@ == name@,
            u.id@.len() == 36,
    {
        User { id: new_uuid_string(), name: name.to_owned() }
    }
}

/// A user's credentials before any password is set.
pub struct CredentialsNoPassword {
    pub id: String,
    pub user_id: String,
    pub email: String,
    pub username: String,
    /// Unix timestamp, in seconds.
    pub created_at: i64,
    /// Unix timestamp, in seconds.
    pub updated_at: i64,
}

/// A user's full credentials: `password_hash` is the PHC string of the
/// password under `password_salt`.
pub struct Credentials {
    pub id: String,
    pub user_id: String,
    pub email: String,
    pub username: String,
    pub password_hash: String,
    pub password_salt: String,
    /// Unix timestamp, in seconds.
    pub created_at: i64,
    /// Unix timestamp, in seconds.
    pub updated_at: i64,
}

impl CredentialsNoPassword {
    /// Draws a fresh random salt, hashes the password with it, and returns
    /// the full credentials: every identifying field carries over unchanged,
    /// and the stored hash is exactly the digest of the password under the
    /// stored salt.
    pub fn add_password_and_salt(self, password: &[u8]) -> (r: Result<Credentials, AuthError>)
        ensures
            r matches Ok(c) ==> c.id == self.id && c.user_id == self.user_id && c.email
                == self.email && c.username == self.username && c.created_at == self.created_at
                && c.updated_at == self.updated_at && c.password_hash@ == argon2_digest(
                password@,
                c.password_salt@,
            ),
    {
        let salt = match generate_salt_b64() {
            Ok(s) => s,
            Err(e) => {
                return Err(AuthError::Argon2Hasher(e));
            },
        };
        let password_hash = match argon2_hash(password, salt.as_str()) {
            Ok(h) => h,
            Err(e) => {
                return Err(AuthError::Argon2Hasher(e));
            },
        };
        Ok(
            Credentials {
                id: self.id,
                user_id: self.user_id,
                email: self.email,
                username: self.username,
                password_hash,
                password_salt: salt,
                created_at: self.created_at,
                updated_at: self.updated_at,
            },
        )
    }
}

impl Credentials {
    /// Starts fresh credentials for a user: a fresh random identifier, the
    /// given addresses, and the current instant on both timestamps.
    pub fn new(user_id: String, email: &str, username: &str) -> (c: CredentialsNoPassword)
        ensures
            c.user_id == user_id,
            c.email@ == email@,
            c.username@ == username@,
            c.id@.len() == 36,
    {
        CredentialsNoPassword {
            id: new_uuid_string(),
            user_id,
            email: email.to_owned(),
            username: username.to_owned(),
            created_at: now_timestamp(),
            updated_at: now_timestamp(),
        }
    }

    /// Hashes the given password under the stored salt and compares: accepts
    /// exactly when the digest equals the stored hash.
    pub fn check_password(&self, password: &[u8]) -> (r: Result<bool, AuthError>)
        ensures
            r matches Ok(b) ==> b == (argon2_digest(password@, self.password_salt@)
                == self.password_hash@),
    {
        let password_hash = match argon2_hash(password, self.password_salt.as_str()) {
            Ok(h) => h,
            Err(e) => {
                return Err(AuthError::Argon2Hasher(e));
            },
        };
        Ok(password_hash == self.password_hash)
    }
}

} // verus!

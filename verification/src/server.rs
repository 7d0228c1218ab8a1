//! The HTTP-facing side of the process; only its plain request data and
//! decisions live here, the transport does not.

pub mod auth;

//! Session and CSRF protection core: an in-memory session store with a
//! sliding inactivity window, a token service that binds CSRF tokens to
//! session identities, a cookie/header codec, and the request-level
//! decisions of the security middleware pipeline.

pub mod hexcode;
pub mod store;
pub mod token;
pub mod cookie;
pub mod pipeline;

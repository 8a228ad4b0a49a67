//! A store of contact records under their phone numbers: the form in which a
//! record is kept, the commands that the storage worker issues, and the
//! outcomes that a request ends in.

pub mod clock;
pub mod codec;
pub mod handlers;
pub mod json;
pub mod store;
pub mod worker;

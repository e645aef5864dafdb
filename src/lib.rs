//! A continuously recording audio keeper: segment naming, segment lifecycle,
//! rotation decisions and storage-quota enforcement, all verified.

pub mod format;
pub mod naming;
pub mod retention;
pub mod session;

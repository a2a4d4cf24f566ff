//! Request-local THP values, the request heap that owns objects, streams
//! and exceptions, and structured runtime failures.

pub mod error;
pub mod value;
pub mod heap;
pub mod input;

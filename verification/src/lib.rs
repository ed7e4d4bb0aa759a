//! A verified streaming SHA-1 implementation.
//!
//! The crate is organised in three layers:
//! - [`model`] states the algorithm mathematically: message schedule, round
//!   mixing, block compression, padding and digest serialization, together
//!   with the laws proved about them.
//! - [`compress`] implements the portable compression backend and the
//!   backend-uniform `compress` entry point, proved bit-for-bit equal to
//!   the model.
//! - [`context`] implements the streaming context: `new`, `update` and
//!   `finalize`, proved to emit exactly the model digest of everything
//!   absorbed, however the input was split across calls.

pub mod compress;
pub mod context;
pub mod model;

pub use compress::compress;
pub use context::Sha1;
pub use context::Sha1Error;

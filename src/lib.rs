//! Verified codec for BSER, the binary serialization used by Watchman.
pub mod de;
pub mod error;
pub mod laws;
pub mod order;
pub mod prefix;
mod private;
pub mod read;
pub mod ser;
pub mod tag;
pub mod text;
pub mod value;
pub mod wire;

//! A covert channel over a recursive DNS resolver's cache: secret-derived
//! names, byte frames laid out over bit slots, and the decisions of the
//! write and read protocols.

pub mod autoconf;
pub mod bits;
pub mod channel;
mod chance;
pub mod crypto;
pub mod derivator;
pub mod encoding;
pub mod rendezvous;
pub mod frame;
pub mod laws;

pub use bits::{get_bit, set_bit};
pub use channel::Xipology;
pub use derivator::NameDerivator;
pub use frame::ReadError;

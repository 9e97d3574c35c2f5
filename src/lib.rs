//! Codec for the Banana wire format, a compact self-describing binary
//! serialization, with extension profiles such as Perspective Broker.
//!
//! - [`wire`]: the byte-level model (preambles, base-128 magnitudes, float
//!   payloads) and the delimiters of plain Banana.
//! - [`model`]: the abstract value of an element, its bytes, and what decoding
//!   a byte sequence yields; the decoder and encoder are proved against it.
//! - [`laws`]: what holds of the codec as a whole, such as the round trip.
//! - [`Element`], [`Profile`]: elements, the extension hook, and the decoder
//!   and encoder themselves; [`PB`] is the Perspective Broker profile.

mod banana;
mod error;
pub mod laws;
pub mod model;
mod pb;
pub mod wire;

pub use banana::{claim_matches, Banana, Element, NoneProfile, Profile};
pub use error::{DecodeError, ErrorKind};
pub use model::Value;
pub use pb::{PerspectiveBroker, PB, PB_TYPE};

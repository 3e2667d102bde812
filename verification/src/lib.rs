//! A verified model of a zero-copy binary serialization protocol.
//!
//! A typed value is encoded as a *binary image*: a fixed-size header region
//! holding the value's own fields (with every address-valued field overwritten
//! by a fixed sentinel), followed by a tail region holding, in depth-first
//! field order, the serialized contents of every buffer the value owns
//! indirectly. Decoding consumes such an image destructively: it re-reads the
//! header, claims the leading tail bytes for each owned buffer, and patches
//! each address-valued field so that it holds the offset of its claimed
//! region inside the buffer. Validation is the read-only counterpart: it
//! confirms that the address fields of a previously decoded image still equal
//! the offsets that decoding would produce.
//!
//! Addresses are arena-relative: an address field always holds an offset into
//! the enclosing byte buffer, never a machine pointer, so an image stays
//! meaningful wherever its bytes are moved as a whole.

pub mod layout;
pub mod value;
pub mod image;
pub mod codec;
pub mod protocol;
pub mod laws;

pub use layout::Ty;
pub use layout::NEUTRAL_ADDR;
pub use value::Value;
pub use value::Val;
pub use value::value_eq;
pub use value::embalm_value;
pub use image::sizes_ok_of;
pub use protocol::Abomonation;
pub use protocol::encode;
pub use protocol::decode;
pub use protocol::verify;

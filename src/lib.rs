//! A compact binary codec with caller-selected byte order.
//!
//! Values are written into caller-owned byte buffers and read back from
//! byte slices. The byte layout of every supported type is stated as a spec
//! function over the value's model, and the codecs are proved to write and
//! accept exactly that layout. The module `laws` proves that decoding
//! inverts encoding; `compose` extends the codec to records and tagged
//! unions.
pub mod compose;
pub mod deserialize;
pub mod endian;
pub mod error;
pub mod laws;
pub mod layout;
pub mod serialize;

pub use deserialize::Deserialize;
pub use endian::Endianness;
pub use error::{DeserializeError, SerializeError};
pub use laws::RoundTrip;
pub use serialize::Serialize;

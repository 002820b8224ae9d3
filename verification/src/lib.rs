//! A codec for ROSMSG, the length-prefixed wire format of ROS messages.
//!
//! The wire carries no type information: a [`Shape`] says what is to be read,
//! and a [`Value`] is what was read or what is to be written. [`from_slice`]
//! decodes a message, [`from_reader`] one message after another, and
//! [`to_vec`] encodes one; a [`de::Deserializer`] and a [`ser::Serializer`]
//! do the same value by value, without the frame of a message.
//!
//! What decoding gives, for every input, is defined by the functions of
//! [`de::ReadState`], and what encoding gives by [`ser::wire`]. The modules
//! [`laws`], [`round_trip`] and [`budget`] prove what holds of the two
//! together.

pub mod budget;
pub mod de;
pub mod error;
pub mod laws;
pub mod round_trip;
pub mod ser;
pub mod text;
pub mod value;
pub mod wire;

pub use de::{from_reader, from_slice, from_str};
pub use error::Error;
pub use ser::to_vec;
pub use value::{Shape, Value};

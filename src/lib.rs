//! Framing codecs that turn a byte stream into a stream of messages and back,
//! with combinators that tag messages with a request id or a peer address.
//!
//! Every codec implements [`codec::Codec`], whose contract states one decode
//! step as a relation between the codec and buffer before and after the call.
//! The laws that follow from these contracts (a frame decodes back to itself,
//! a stream of frames decodes back in order, bytes may arrive in any chunks)
//! stand beside each codec as proof functions.
#![allow(deprecated)]

pub mod buf;
pub mod codec;
pub mod search;
pub mod endian;
pub mod fixed_length;
pub mod delimiter;
pub mod length_field;
pub mod varint;
pub mod request_id_field;
pub mod remote_addr;
pub mod decode_to_vec;

//! A thin codec over protobuf's wire format: a message encodes to bytes and
//! decodes back, field by field, with prost's field codecs.

pub mod wire;
pub mod message;
pub mod fixture;

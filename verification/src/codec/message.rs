use vstd::prelude::*;

verus! {

/// A message with a wire format.
pub trait Message: Sized {
    /// The bytes the message encodes to.
    spec fn wire(&self) -> Seq<u8>;

    /// Whether two messages hold the same values.
    spec fn same(&self, other: &Self) -> bool;

    /// Appends the bytes of the message to `buf`.
    fn encode_raw(&self, buf: &mut Vec<u8>)
        ensures
            final(buf)@ == old(buf)@ + self.wire(),
    ;

    /// The number of bytes the message encodes to.
    fn encoded_len(&self) -> (r: usize)
        requires
            self.wire().len() <= usize::MAX,
        ensures
            r == self.wire().len(),
    ;

    /// Decodes a message from the whole of `buf`: the bytes of a message
    /// decode to that message.
    fn decode(buf: &[u8]) -> (r: Result<Self, prost::DecodeError>)
        ensures
            forall|m: Self| #[trigger] m.wire() == buf@ ==> (r matches Ok(d) && d.same(&m)),
    ;
}

/// Encodes `message`, appending its bytes to `buf`.
pub fn encode<M: Message>(message: &M, buf: &mut Vec<u8>) -> (r: Result<(), prost::EncodeError>)
    requires
        old(buf)@.len() + message.wire().len() <= usize::MAX,
    ensures
        r is Ok,
        final(buf)@ == old(buf)@ + message.wire(),
{
    buf.reserve(message.encoded_len());
    message.encode_raw(buf);
    Ok(())
}

/// Decodes a message from `buf`: the bytes of a message decode to that
/// message.
pub fn decode<M: Message>(buf: &[u8]) -> (r: Result<M, prost::DecodeError>)
    ensures
        forall|m: M| #[trigger] m.wire() == buf@ ==> (r matches Ok(d) && d.same(&m)),
{
    M::decode(buf)
}

} // verus!

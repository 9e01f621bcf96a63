use std::convert::Infallible;
use vstd::prelude::*;

verus! {

/// Represents a serializable entry in the write-ahead log.
///
/// The log stores bytes. What an entry serializes to, and what bytes
/// deserialize to, is for the implementation to say: the three ghost
/// functions give it a name, so that the contracts of the log can speak of
/// it. An implementation that states none of them leaves each an unknown
/// function of its arguments. The contracts of `serialize` and
/// `deserialize` hold the implementation to these functions, and so to no
/// more than this where they are unknown: the same value serializes to the
/// same bytes each time, and the same bytes deserialize alike each time.
/// They are proved of the implementations in this library; of an
/// implementation that is not verified they are believed.
pub trait Entry: Sized {
    /// What the bytes of an entry deserialize to
    type Output;

    /// The error of a failed serialization or deserialization
    type Error;

    /// The bytes that `serialize` gives for this value, `None` where it
    /// fails.
    open spec fn encoded(&self) -> Option<Seq<u8>> {
        vstd::pervasive::arbitrary::<spec_fn(Self) -> Option<Seq<u8>>>()(*self)
    }

    /// Whether `deserialize` accepts `data`.
    open spec fn decodable(data: Seq<u8>) -> bool {
        vstd::pervasive::arbitrary::<spec_fn(Seq<u8>) -> bool>()(data)
    }

    /// Whether `out` is what `deserialize` gives for `data`.
    open spec fn decodes(data: Seq<u8>, out: Self::Output) -> bool {
        vstd::pervasive::arbitrary::<spec_fn(Seq<u8>, Self::Output) -> bool>()(data, out)
    }

    /// The bytes to store for this entry
    fn serialize(self) -> (r: Result<Vec<u8>, Self::Error>)
        ensures
            match r {
                Ok(bytes) => self.encoded() == Some(bytes@),
                Err(_) => self.encoded() is None,
            },
    ;

    /// The entry that was stored as `data`
    fn deserialize(data: Vec<u8>) -> (r: Result<Self::Output, Self::Error>)
        ensures
            match r {
                Ok(out) => Self::decodable(data@) && Self::decodes(data@, out),
                Err(_) => !Self::decodable(data@),
            },
    ;
}

impl Entry for Vec<u8> {
    type Output = Vec<u8>;

    type Error = Infallible;

    open spec fn encoded(&self) -> Option<Seq<u8>> {
        Some(self@)
    }

    open spec fn decodable(data: Seq<u8>) -> bool {
        true
    }

    open spec fn decodes(data: Seq<u8>, out: Vec<u8>) -> bool {
        out@ == data
    }

    fn serialize(self) -> (r: Result<Vec<u8>, Infallible>) {
        Ok(self)
    }

    fn deserialize(data: Vec<u8>) -> (r: Result<Vec<u8>, Infallible>) {
        Ok(data)
    }
}

impl Entry for &[u8] {
    type Output = Vec<u8>;

    type Error = Infallible;

    open spec fn encoded(&self) -> Option<Seq<u8>> {
        Some(self@)
    }

    open spec fn decodable(data: Seq<u8>) -> bool {
        true
    }

    open spec fn decodes(data: Seq<u8>, out: Vec<u8>) -> bool {
        out@ == data
    }

    fn serialize(self) -> (r: Result<Vec<u8>, Infallible>) {
        Ok(vstd::slice::slice_to_vec(self))
    }

    fn deserialize(data: Vec<u8>) -> (r: Result<Vec<u8>, Infallible>) {
        Ok(data)
    }
}

/// A vector of bytes serializes to itself and deserializes to itself:
/// what is deserialized from the serialized bytes of a vector has the bytes
/// of the vector. Neither step fails.
pub proof fn lemma_bytes_round_trip(value: Vec<u8>, out: Vec<u8>)
    requires
        value.encoded() matches Some(bytes) && <Vec<u8> as Entry>::decodes(bytes, out),
    ensures
        out@ == value@,
{
}

/// A vector of bytes always serializes, and any bytes deserialize to a
/// vector.
pub proof fn lemma_bytes_always(value: Vec<u8>, data: Seq<u8>)
    ensures
        value.encoded() == Some(value@),
        <Vec<u8> as Entry>::decodable(data),
{
}

} // verus!

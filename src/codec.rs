//! The interface of a wire format.
use crate::error::Error;
use crate::mdd::{Containers, Field, Value};
use vstd::prelude::*;

verus! {

/// A wire format: decodes a buffer into containers and writes them back,
/// and turns a single field's raw bytes into a value and back.
pub trait Codec {
    fn decode<'a>(&self, data: &'a [u8]) -> Result<Containers<'a>, Error>;

    fn encode(&self, containers: &Containers) -> Result<Vec<u8>, Error>;

    fn decode_field<'a>(&self, field: &Field<'a>) -> Result<Value<'a>, Error>;

    fn encode_field(&self, field: &Field) -> Result<Vec<u8>, Error>;
}

} // verus!

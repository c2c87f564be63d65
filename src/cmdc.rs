//! The cMDC codec.
pub mod decode;
pub mod encode;
pub mod value;

use crate::cmdc::decode::fresh_containers;
use crate::cmdc::value::{as_int, int_outcome, string_outcome};
use crate::codec::Codec;
use crate::error::Error;
use crate::mdd::{Containers, Field, FieldType, Value};
use crate::cmdc::encode::{containers_encoding, encode_error, field_text};
use crate::wire::{containers_decode, fault_text};
use vstd::prelude::*;

verus! {

/// The codec of the cMDC format. It holds no state: a value of it is a
/// handle that decoded fields keep, to decode their values later.
#[derive(Debug, Clone, Copy, PartialEq, Eq, Structural)]
pub struct CmdcCodec {}

/// The integer that a value of an integer type holds.
pub open spec fn value_int(r: Result<Value, Error>) -> Result<int, Error> {
    match r {
        Ok(Value::Int8(v)) => Ok(v as int),
        Ok(Value::Int16(v)) => Ok(v as int),
        Ok(Value::Int32(v)) => Ok(v as int),
        Ok(Value::Int64(v)) => Ok(v as int),
        Ok(Value::UInt8(v)) => Ok(v as int),
        Ok(Value::UInt16(v)) => Ok(v as int),
        Ok(Value::UInt32(v)) => Ok(v as int),
        Ok(Value::UInt64(v)) => Ok(v as int),
        Ok(_) => Ok(0),
        Err(e) => Err(e),
    }
}

/// The message for a field type that has no codec.
pub open spec fn unsupported_text() -> Seq<char> {
    "Unsupported field type"@
}

/// True when `r` is what decoding the raw bytes `data` as a value of type
/// `t` gives.
pub open spec fn field_value_outcome(t: FieldType, data: Seq<u8>, r: Result<Value, Error>) -> bool {
    match t {
        FieldType::Struct => match containers_decode(data) {
            Ok(rs) => r matches Ok(Value::Struct(cs)) && fresh_containers(cs, rs),
            Err(f) => r matches Err(e) && e.is_decode(fault_text(f)),
        },
        FieldType::String => (r is Ok ==> r->Ok_0 is String) && string_outcome(
            data,
            match r {
                Ok(Value::String(s)) => Ok(s@),
                Ok(_) => Ok(Seq::empty()),
                Err(e) => Err(e),
            },
        ),
        FieldType::Int8 => (r is Ok ==> r->Ok_0 is Int8) && int_outcome(data, i8::MIN as int, i8::MAX as int, value_int(r)),
        FieldType::Int16 => (r is Ok ==> r->Ok_0 is Int16) && int_outcome(data, i16::MIN as int, i16::MAX as int, value_int(r)),
        FieldType::Int32 => (r is Ok ==> r->Ok_0 is Int32) && int_outcome(data, i32::MIN as int, i32::MAX as int, value_int(r)),
        FieldType::Int64 => (r is Ok ==> r->Ok_0 is Int64) && int_outcome(data, i64::MIN as int, i64::MAX as int, value_int(r)),
        FieldType::UInt8 => (r is Ok ==> r->Ok_0 is UInt8) && int_outcome(data, 0, u8::MAX as int, value_int(r)),
        FieldType::UInt16 => (r is Ok ==> r->Ok_0 is UInt16) && int_outcome(data, 0, u16::MAX as int, value_int(r)),
        FieldType::UInt32 => (r is Ok ==> r->Ok_0 is UInt32) && int_outcome(data, 0, u32::MAX as int, value_int(r)),
        FieldType::UInt64 => (r is Ok ==> r->Ok_0 is UInt64) && int_outcome(data, 0, u64::MAX as int, value_int(r)),
        _ => r matches Err(e) && e.is_decode(unsupported_text()),
    }
}

impl CmdcCodec {
    pub fn new() -> (r: CmdcCodec)
        ensures
            r == (CmdcCodec {}),
    {
        CmdcCodec {}
    }

    /// Decodes every container of `data`.
    pub fn decode<'a>(&self, data: &'a [u8]) -> (r: Result<Containers<'a>, Error>)
        ensures
            match containers_decode(data@) {
                Ok(rs) => r matches Ok(cs) && fresh_containers(cs, rs),
                Err(f) => r matches Err(e) && e.is_decode(fault_text(f)),
            },
    {
        self.decode_containers(data)
    }

    /// Writes every container, in order.
    pub fn encode(&self, containers: &Containers) -> (r: Result<Vec<u8>, Error>)
        ensures
            match containers_encoding(*containers) {
                Ok(b) => r matches Ok(out) && out@ == b,
                Err(f) => r matches Err(e) && encode_error(e, f),
            },
    {
        self.encode_struct(containers)
    }

    /// Decodes the raw bytes of `field` as a value of the field's type.
    pub fn decode_field<'a>(&self, field: &Field<'a>) -> (r: Result<Value<'a>, Error>)
        ensures
            field_value_outcome(field.field_type, field.data@, r),
    {
        let data = field.data;
        match field.field_type {
            FieldType::Struct => match self.decode_struct(data) {
                Ok(cs) => Ok(Value::Struct(cs)),
                Err(e) => Err(e),
            },
            FieldType::String => match self.decode_string(data) {
                Ok(s) => Ok(Value::String(s.to_owned())),
                Err(e) => Err(e),
            },
            FieldType::Int8 => match self.decode_int8(data) {
                Ok(v) => Ok(Value::Int8(v)),
                Err(e) => Err(e),
            },
            FieldType::Int16 => match self.decode_int16(data) {
                Ok(v) => Ok(Value::Int16(v)),
                Err(e) => Err(e),
            },
            FieldType::Int32 => match self.decode_int32(data) {
                Ok(v) => Ok(Value::Int32(v)),
                Err(e) => Err(e),
            },
            FieldType::Int64 => match self.decode_int64(data) {
                Ok(v) => Ok(Value::Int64(v)),
                Err(e) => Err(e),
            },
            FieldType::UInt8 => match self.decode_uint8(data) {
                Ok(v) => Ok(Value::UInt8(v)),
                Err(e) => Err(e),
            },
            FieldType::UInt16 => match self.decode_uint16(data) {
                Ok(v) => Ok(Value::UInt16(v)),
                Err(e) => Err(e),
            },
            FieldType::UInt32 => match self.decode_uint32(data) {
                Ok(v) => Ok(Value::UInt32(v)),
                Err(e) => Err(e),
            },
            FieldType::UInt64 => match self.decode_uint64(data) {
                Ok(v) => Ok(Value::UInt64(v)),
                Err(e) => Err(e),
            },
            _ => Err(Error::DecodeError(String::from_str("Unsupported field type"))),
        }
    }

    /// The bytes of `field`: none for a null field, its raw bytes where it
    /// has any, else its decoded value written by the codec of its type.
    pub fn encode_field(&self, field: &Field) -> (r: Result<Vec<u8>, Error>)
        ensures
            match field_text(*field) {
                Ok(b) => r matches Ok(out) && out@ == b,
                Err(f) => r matches Err(e) && encode_error(e, f),
            },
        decreases field, 0int,
    {
        if field.is_null {
            return Ok(Vec::new());
        }
        if field.data.len() > 0 {
            return Ok(crate::cmdc::encode::bytes_vec(field.data));
        }
        let value = match &field.value {
            Some(v) => v,
            None => return Err(Error::DecodeError(String::from_str("Field not decoded yet"))),
        };
        match (field.field_type, value) {
            (FieldType::Struct, Value::Struct(cs)) => self.encode_struct(cs),
            (FieldType::String, Value::String(s)) => self.encode_string(s.as_str()),
            (FieldType::Int8, Value::Int8(v)) => self.encode_int8(*v),
            (FieldType::Int16, Value::Int16(v)) => self.encode_int16(*v),
            (FieldType::Int32, Value::Int32(v)) => self.encode_int32(*v),
            (FieldType::Int64, Value::Int64(v)) => self.encode_int64(*v),
            (FieldType::UInt8, Value::UInt8(v)) => self.encode_uint8(*v),
            (FieldType::UInt16, Value::UInt16(v)) => self.encode_uint16(*v),
            (FieldType::UInt32, Value::UInt32(v)) => self.encode_uint32(*v),
            (FieldType::UInt64, Value::UInt64(v)) => self.encode_uint64(*v),
            _ => Err(Error::EncodeError(String::from_str("Unsupported field type"))),
        }
    }
}

impl Codec for CmdcCodec {
    fn decode<'a>(&self, data: &'a [u8]) -> Result<Containers<'a>, Error> {
        CmdcCodec::decode(self, data)
    }

    fn encode(&self, containers: &Containers) -> Result<Vec<u8>, Error> {
        CmdcCodec::encode(self, containers)
    }

    fn decode_field<'a>(&self, field: &Field<'a>) -> Result<Value<'a>, Error> {
        CmdcCodec::decode_field(self, field)
    }

    fn encode_field(&self, field: &Field) -> Result<Vec<u8>, Error> {
        CmdcCodec::encode_field(self, field)
    }
}

} // verus!

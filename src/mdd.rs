use crate::cmdc::{field_value_outcome, CmdcCodec};
use crate::error::Error;
use vstd::prelude::*;

verus! {

/// The decimal type of `bigdecimal`, carried opaque in a `Value`: the codec
/// reads and writes no decimal, so nothing of its content is relied on.
#[verifier::external_type_specification]
#[verifier::external_body]
pub struct ExBigDecimal(bigdecimal::BigDecimal);

/// An ordered sequence of containers, in buffer order.
#[derive(Debug)]
pub struct Containers<'a> {
    pub containers: Vec<Container<'a>>,
}

/// One record: a header and its fields.
#[derive(Debug)]
pub struct Container<'a> {
    pub header: Header,
    pub fields: Vec<Field<'a>>,
}

/// The six numbers that open every container.
#[derive(Debug, Clone, Copy, PartialEq, Eq, Structural)]
pub struct Header {
    pub version: u8,
    pub total_field: u8,
    pub depth: i8,
    pub key: i32,
    pub schema_version: u16,
    pub ext_version: u16,
}

/// One field of a body: the raw bytes it was read from, borrowed from the
/// buffer, the type a caller gives it, and the value decoded from it once.
/// Decoding the value needs the field exclusively (`&mut`), so a field
/// shared between threads must be decoded under the caller's own lock.
#[derive(Debug)]
pub struct Field<'a> {
    pub data: &'a [u8],
    pub field_type: FieldType,
    pub value: Option<Value<'a>>,
    /// The codec that decodes the value; decoded fields hold the one that
    /// read them.
    pub codec: Option<CmdcCodec>,
    /// The raw bytes are a `{...}` group.
    pub is_multi: bool,
    /// The raw bytes are a nested `<header>[body]`.
    pub is_container: bool,
    /// The field holds no byte: no value is present.
    pub is_null: bool,
}

/// A decoded value. Nested containers borrow from the same buffer as the
/// field they were decoded from.
#[derive(Debug)]
pub enum Value<'a> {
    Struct(Containers<'a>),
    String(String),
    Int8(i8),
    Int16(i16),
    Int32(i32),
    Int64(i64),
    UInt8(u8),
    UInt16(u16),
    UInt32(u32),
    UInt64(u64),
    Bool(bool),
    Decimal(bigdecimal::BigDecimal),
}

/// The type of a field, known from a schema; `Unknown` until a caller sets it.
#[derive(Debug, Clone, Copy, PartialEq, Eq, Structural)]
pub enum FieldType {
    Unknown,
    Struct,
    String,
    Int8,
    Int16,
    Int32,
    Int64,
    UInt8,
    UInt16,
    UInt32,
    UInt64,
    Bool,
    Decimal,
}

impl<'a> Field<'a> {
    /// A field of the bytes `data`, with no type, value or codec.
    pub fn raw(data: &'a [u8]) -> (r: Self)
        ensures
            r.data@ == data@,
            r.field_type == FieldType::Unknown,
            r.value is None,
            r.codec is None,
            !r.is_multi && !r.is_container && !r.is_null,
    {
        Field {
            data,
            field_type: FieldType::Unknown,
            value: None,
            codec: None,
            is_multi: false,
            is_container: false,
            is_null: false,
        }
    }

    /// The value of the field, decoded once and then kept. A null field has
    /// none. A field that holds a value already hands it back untouched, so
    /// that every later call returns the value of the first, without reading
    /// the bytes again. Otherwise the field's codec decodes its raw bytes as
    /// its type, and the field keeps the value.
    pub fn decode_value(&mut self) -> (r: Result<Option<&Value<'a>>, Error>)
        ensures
            decode_value_post(*old(self), r, *final(self)),
    {
        if self.is_null {
            return Ok(None);
        }
        if self.value.is_none() {
            let codec = match self.codec {
                Some(c) => c,
                None => return Err(Error::DecodeError(String::from_str("No codec"))),
            };
            let value = codec.decode_field(self)?;
            self.value = Some(value);
        }
        Ok(self.value.as_ref())
    }

    /// The value that an earlier `decode_value` kept: none for a null field,
    /// an error where nothing was decoded yet.
    pub fn get_value(&self) -> (r: Result<Option<&Value<'a>>, Error>)
        ensures
            self.is_null ==> r is Ok && r->Ok_0 is None,
            !self.is_null && self.value is Some ==> (r matches Ok(Some(v)) && self.value == Some(*v)),
            !self.is_null && self.value is None ==> (r matches Err(e) && e.is_decode("Field not decoded yet"@)),
    {
        if self.is_null {
            return Ok(None);
        }
        match &self.value {
            Some(v) => Ok(Some(v)),
            None => Err(Error::DecodeError(String::from_str("Field not decoded yet"))),
        }
    }

    /// The value kept, if any; none for a null field.
    pub fn value(&self) -> (r: Option<&Value<'a>>)
        ensures
            self.is_null ==> r is None,
            !self.is_null ==> match r {
                Some(v) => self.value == Some(*v),
                None => self.value is None,
            },
    {
        if self.is_null {
            return None;
        }
        self.value.as_ref()
    }
}

/// What a call of `decode_value` on the field `old` gives: the result `r`
/// and the field `new` after it. A null field has no value; a field that
/// holds a value hands it back and stays as it is; a field with no codec
/// fails; otherwise the codec decodes the raw bytes as the field's type, and
/// on success the field keeps the value.
pub open spec fn decode_value_post<'a>(old: Field<'a>, r: Result<Option<&Value<'a>>, Error>, new: Field<'a>) -> bool {
    if old.is_null {
        r is Ok && r->Ok_0 is None && new == old
    } else if old.value is Some {
        new == old && (r matches Ok(Some(v)) && old.value == Some(*v))
    } else if old.codec is None {
        new == old && (r matches Err(e) && e.is_decode("No codec"@))
    } else {
        &&& r is Ok ==> r->Ok_0 is Some
        &&& r matches Ok(Some(v)) ==> field_value_outcome(
            old.field_type,
            old.data@,
            Ok::<Value<'a>, Error>(*v),
        ) && new == (Field { value: Some(*v), ..old })
        &&& r matches Err(e) ==> field_value_outcome(old.field_type, old.data@, Err::<Value<'a>, Error>(e))
            && new == old
    }
}

/// Decoding a field's value twice gives the same result both times, and the
/// second call leaves the field as the first left it: once decoded, the
/// value is kept and handed back, never read again from the bytes.
pub proof fn lemma_decode_value_twice<'a>(
    f0: Field<'a>,
    r1: Result<Option<&Value<'a>>, Error>,
    f1: Field<'a>,
    r2: Result<Option<&Value<'a>>, Error>,
    f2: Field<'a>,
)
    requires
        decode_value_post(f0, r1, f1),
        decode_value_post(f1, r2, f2),
        r1 is Ok,
    ensures
        r2 == r1,
        f2 == f1,
{
}

impl<'a> Value<'a> {
    pub fn as_struct(&self) -> (r: Option<&Containers<'a>>)
        ensures
            match self {
                Value::Struct(c) => r == Some(c),
                _ => r is None,
            },
    {
        match self {
            Value::Struct(v) => Some(v),
            _ => None,
        }
    }

    pub fn as_string(&self) -> (r: Option<&str>)
        ensures
            match self {
                Value::String(s) => r matches Some(t) && t@ == s@,
                _ => r is None,
            },
    {
        match self {
            Value::String(v) => Some(v.as_str()),
            _ => None,
        }
    }

    pub fn as_int8(&self) -> (r: Option<i8>)
        ensures
            match self {
                Value::Int8(v) => r == Some(*v),
                _ => r is None,
            },
    {
        match self {
            Value::Int8(v) => Some(*v),
            _ => None,
        }
    }

    pub fn as_int16(&self) -> (r: Option<i16>)
        ensures
            match self {
                Value::Int16(v) => r == Some(*v),
                _ => r is None,
            },
    {
        match self {
            Value::Int16(v) => Some(*v),
            _ => None,
        }
    }

    pub fn as_int32(&self) -> (r: Option<i32>)
        ensures
            match self {
                Value::Int32(v) => r == Some(*v),
                _ => r is None,
            },
    {
        match self {
            Value::Int32(v) => Some(*v),
            _ => None,
        }
    }

    pub fn as_int64(&self) -> (r: Option<i64>)
        ensures
            match self {
                Value::Int64(v) => r == Some(*v),
                _ => r is None,
            },
    {
        match self {
            Value::Int64(v) => Some(*v),
            _ => None,
        }
    }

    pub fn as_uint8(&self) -> (r: Option<u8>)
        ensures
            match self {
                Value::UInt8(v) => r == Some(*v),
                _ => r is None,
            },
    {
        match self {
            Value::UInt8(v) => Some(*v),
            _ => None,
        }
    }

    pub fn as_uint16(&self) -> (r: Option<u16>)
        ensures
            match self {
                Value::UInt16(v) => r == Some(*v),
                _ => r is None,
            },
    {
        match self {
            Value::UInt16(v) => Some(*v),
            _ => None,
        }
    }

    pub fn as_uint32(&self) -> (r: Option<u32>)
        ensures
            match self {
                Value::UInt32(v) => r == Some(*v),
                _ => r is None,
            },
    {
        match self {
            Value::UInt32(v) => Some(*v),
            _ => None,
        }
    }

    pub fn as_uint64(&self) -> (r: Option<u64>)
        ensures
            match self {
                Value::UInt64(v) => r == Some(*v),
                _ => r is None,
            },
    {
        match self {
            Value::UInt64(v) => Some(*v),
            _ => None,
        }
    }

    pub fn as_bool(&self) -> (r: Option<bool>)
        ensures
            match self {
                Value::Bool(v) => r == Some(*v),
                _ => r is None,
            },
    {
        match self {
            Value::Bool(v) => Some(*v),
            _ => None,
        }
    }

    pub fn as_decimal(&self) -> (r: Option<&bigdecimal::BigDecimal>)
        ensures
            match self {
                Value::Decimal(d) => r == Some(d),
                _ => r is None,
            },
    {
        match self {
            Value::Decimal(v) => Some(v),
            _ => None,
        }
    }
}

} // verus!

verus! {

/// What a field is as bytes of the format: its raw span and the two marks
/// that the raw syntax shows.
pub struct FieldModel {
    pub data: Seq<u8>,
    pub is_multi: bool,
    pub is_container: bool,
}

/// A container as bytes of the format: its header and the models of its fields.
pub struct ContainerModel {
    pub header: Header,
    pub fields: Seq<FieldModel>,
}

impl<'a> Field<'a> {
    pub open spec fn model(&self) -> FieldModel {
        FieldModel { data: self.data@, is_multi: self.is_multi, is_container: self.is_container }
    }
}

impl<'a> Container<'a> {
    pub open spec fn model(&self) -> ContainerModel {
        ContainerModel { header: self.header, fields: self.fields@.map_values(|f: Field<'a>| f.model()) }
    }
}

impl<'a> Containers<'a> {
    pub open spec fn model(&self) -> Seq<ContainerModel> {
        self.containers@.map_values(|c: Container<'a>| c.model())
    }
}

} // verus!

use crate::cmdc::CmdcCodec;
use crate::mdd::{Container, Containers, Field, FieldType, Header, Value};
use crate::numeral::int_text;
use crate::wire::string_text;
use vstd::utf8::encode_utf8;
use crate::numeral::push_int;
use crate::wire::{header_text, CLOSE_SQUARE, COMMA, GT, LT, OPEN_SQUARE};
use vstd::prelude::*;

verus! {

/// Appends `bytes` to `buf`.
pub fn push_bytes(buf: &mut Vec<u8>, bytes: &[u8])
    ensures
        final(buf)@ == old(buf)@ + bytes@,
{
    let mut i: usize = 0;
    while i < bytes.len()
        invariant
            i <= bytes@.len(),
            buf@ == old(buf)@ + bytes@.subrange(0, i as int),
        decreases bytes@.len() - i,
    {
        buf.push(bytes[i]);
        i = i + 1;
        assert(buf@ =~= old(buf)@ + bytes@.subrange(0, i as int));
    }
    assert(bytes@.subrange(0, i as int) =~= bytes@);
}

/// A copy of `bytes`.
pub fn bytes_vec(bytes: &[u8]) -> (r: Vec<u8>)
    ensures
        r@ == bytes@,
{
    let mut r: Vec<u8> = Vec::new();
    push_bytes(&mut r, bytes);
    r
}

/// Why a field cannot be written.
pub enum EncodeFault {
    /// The field has neither raw bytes nor a value.
    NotDecoded,
    /// The field's type has no codec, or its value is of another type.
    Unsupported,
}

/// True when `e` is the error for the fault `f`.
pub open spec fn encode_error(e: crate::error::Error, f: EncodeFault) -> bool {
    match f {
        EncodeFault::NotDecoded => e.is_decode("Field not decoded yet"@),
        EncodeFault::Unsupported => e matches crate::error::Error::EncodeError(m) && m@
            == crate::cmdc::unsupported_text(),
    }
}

/// The bytes of a field: none for a null field, its raw bytes where it has
/// any, else its value written by the codec of its type.
pub open spec fn field_text(f: Field) -> Result<Seq<u8>, EncodeFault>
    decreases f, 0int,
{
    if f.is_null {
        Ok(seq![])
    } else if f.data@.len() > 0 {
        Ok(f.data@)
    } else {
        match f.value {
            None => Err(EncodeFault::NotDecoded),
            Some(v) => value_text(f.field_type, v),
        }
    }
}

/// The bytes of a value of type `t`, where there is a codec for `t` and `v`
/// is of that type.
pub open spec fn value_text(t: FieldType, v: Value) -> Result<Seq<u8>, EncodeFault>
    decreases v, 0int,
{
    match v {
        Value::Struct(cs) => if t == FieldType::Struct {
            containers_bytes(cs.containers@, cs.containers@.len() as int)
        } else {
            Err(EncodeFault::Unsupported)
        },
        Value::String(s) => if t == FieldType::String {
            Ok(string_text(encode_utf8(s@)))
        } else {
            Err(EncodeFault::Unsupported)
        },
        Value::Int8(x) => if t == FieldType::Int8 { Ok(int_text(x as int)) } else { Err(EncodeFault::Unsupported) },
        Value::Int16(x) => if t == FieldType::Int16 { Ok(int_text(x as int)) } else { Err(EncodeFault::Unsupported) },
        Value::Int32(x) => if t == FieldType::Int32 { Ok(int_text(x as int)) } else { Err(EncodeFault::Unsupported) },
        Value::Int64(x) => if t == FieldType::Int64 { Ok(int_text(x as int)) } else { Err(EncodeFault::Unsupported) },
        Value::UInt8(x) => if t == FieldType::UInt8 { Ok(int_text(x as int)) } else { Err(EncodeFault::Unsupported) },
        Value::UInt16(x) => if t == FieldType::UInt16 { Ok(int_text(x as int)) } else { Err(EncodeFault::Unsupported) },
        Value::UInt32(x) => if t == FieldType::UInt32 { Ok(int_text(x as int)) } else { Err(EncodeFault::Unsupported) },
        Value::UInt64(x) => if t == FieldType::UInt64 { Ok(int_text(x as int)) } else { Err(EncodeFault::Unsupported) },
        _ => Err(EncodeFault::Unsupported),
    }
}

/// The first `n` fields of `fs`, written with a comma between each two; the
/// first field that cannot be written fails it.
pub open spec fn fields_bytes(fs: Seq<Field>, n: int) -> Result<Seq<u8>, EncodeFault>
    decreases fs, n,
{
    if n <= 0 || n > fs.len() {
        Ok(seq![])
    } else {
        match fields_bytes(fs, n - 1) {
            Err(f) => Err(f),
            Ok(a) => match field_text(fs[n - 1]) {
                Err(f) => Err(f),
                Ok(b) => Ok(if n == 1 { b } else { a + seq![COMMA] + b }),
            },
        }
    }
}

/// The bytes of a container: its canonical header, then its fields between
/// brackets.
pub open spec fn container_bytes(c: Container) -> Result<Seq<u8>, EncodeFault>
    decreases c, 0int,
{
    match fields_bytes(c.fields@, c.fields@.len() as int) {
        Err(f) => Err(f),
        Ok(b) => Ok(header_text(c.header) + seq![OPEN_SQUARE] + b + seq![CLOSE_SQUARE]),
    }
}

/// The bytes of the first `n` containers of `cs`, with nothing between them.
pub open spec fn containers_bytes(cs: Seq<Container>, n: int) -> Result<Seq<u8>, EncodeFault>
    decreases cs, n,
{
    if n <= 0 || n > cs.len() {
        Ok(seq![])
    } else {
        match containers_bytes(cs, n - 1) {
            Err(f) => Err(f),
            Ok(a) => match container_bytes(cs[n - 1]) {
                Err(f) => Err(f),
                Ok(b) => Ok(a + b),
            },
        }
    }
}

/// The bytes of all the containers of `cs`.
pub open spec fn containers_encoding(cs: Containers) -> Result<Seq<u8>, EncodeFault> {
    containers_bytes(cs.containers@, cs.containers@.len() as int)
}

/// `x`, or `usize::MAX` where `x` is larger.
pub open spec fn saturated(x: int) -> int {
    if x > usize::MAX {
        usize::MAX as int
    } else {
        x
    }
}

/// True when `new` starts with `old`.
pub open spec fn extends(new: Seq<u8>, old: Seq<u8>) -> bool {
    old.len() <= new.len() && new.subrange(0, old.len() as int) == old
}

/// Once a field cannot be written, no longer run of fields can.
pub proof fn lemma_fields_bytes_fail(fs: Seq<Field>, i: int, n: int)
    requires
        1 <= i <= n <= fs.len(),
        fields_bytes(fs, i) is Err,
    ensures
        fields_bytes(fs, n) == fields_bytes(fs, i),
    decreases n - i,
{
    if n > i {
        lemma_fields_bytes_fail(fs, i, n - 1);
    }
}

/// Once a container cannot be written, no longer run of containers can.
pub proof fn lemma_containers_bytes_fail(cs: Seq<Container>, i: int, n: int)
    requires
        1 <= i <= n <= cs.len(),
        containers_bytes(cs, i) is Err,
    ensures
        containers_bytes(cs, n) == containers_bytes(cs, i),
    decreases n - i,
{
    if n > i {
        lemma_containers_bytes_fail(cs, i, n - 1);
    }
}

impl CmdcCodec {
    /// Appends the bytes of every container, in order, with nothing between
    /// them: raw bytes as they are, fields with a value but no raw bytes
    /// written from the value. A field that cannot be written fails it all,
    /// and leaves what was appended before it.
    pub fn encode_containers(&self, buffer: &mut Vec<u8>, containers: &Containers) -> (r: Result<(), crate::error::Error>)
        ensures
            match containers_encoding(*containers) {
                Ok(b) => r is Ok && final(buffer)@ == old(buffer)@ + b,
                Err(f) => (r matches Err(e) && encode_error(e, f)) && extends(final(buffer)@, old(buffer)@),
            },
        decreases containers, 1int,
    {
        let ghost cs = containers.containers@;
        let mut i: usize = 0;
        while i < containers.containers.len()
            invariant
                cs == containers.containers@,
                i <= cs.len(),
                containers_bytes(cs, i as int) is Ok,
                buffer@ == old(buffer)@ + containers_bytes(cs, i as int)->Ok_0,
            decreases cs.len() - i,
        {
            let ghost before = buffer@;
            let res = self.encode_container(buffer, &containers.containers[i]);
            proof {
                assert(before =~= old(buffer)@ + containers_bytes(cs, i as int)->Ok_0);
            }
            match res {
                Err(e) => {
                    proof {
                        lemma_containers_bytes_fail(cs, i + 1, cs.len() as int);
                        assert(buffer@.subrange(0, old(buffer)@.len() as int) =~= old(buffer)@);
                    }
                    return Err(e);
                },
                Ok(()) => {},
            }
            proof {
                assert(buffer@ =~= old(buffer)@ + containers_bytes(cs, i + 1)->Ok_0);
            }
            i = i + 1;
        }
        Ok(())
    }

    /// The number of bytes that `encode_containers` appends, to reserve room
    /// ahead; it saturates at `usize::MAX`, and is 0 where the containers
    /// cannot be written.
    pub fn get_containers_len(&self, containers: &Containers) -> (r: usize)
        ensures
            match containers_encoding(*containers) {
                Ok(b) => r == saturated(b.len() as int),
                Err(_) => r == 0,
            },
    {
        let ghost cs = containers.containers@;
        let mut len: usize = 0;
        let mut i: usize = 0;
        while i < containers.containers.len()
            invariant
                cs == containers.containers@,
                i <= cs.len(),
                containers_bytes(cs, i as int) is Ok,
                len == saturated(containers_bytes(cs, i as int)->Ok_0.len() as int),
            decreases cs.len() - i,
        {
            let c = self.get_container_len(&containers.containers[i]);
            if c == 0 {
                proof {
                    if container_bytes(cs[i as int]) is Ok {
                        assert(header_text(cs[i as int].header).len() > 0);
                    }
                    lemma_containers_bytes_fail(cs, i + 1, cs.len() as int);
                }
                return 0;
            }
            len = len.saturating_add(c);
            i = i + 1;
        }
        len
    }

    fn encode_container(&self, buffer: &mut Vec<u8>, container: &Container) -> (r: Result<(), crate::error::Error>)
        ensures
            match container_bytes(*container) {
                Ok(b) => r is Ok && final(buffer)@ == old(buffer)@ + b,
                Err(f) => (r matches Err(e) && encode_error(e, f)) && extends(final(buffer)@, old(buffer)@),
            },
        decreases container, 0int,
    {
        self.encode_header(buffer, &container.header);
        let ghost mid = buffer@;
        let res = self.encode_body(buffer, &container.fields);
        proof {
            if res is Err {
                assert(buffer@.subrange(0, old(buffer)@.len() as int) =~= mid.subrange(0, old(buffer)@.len() as int));
                assert(old(buffer)@ =~= mid.subrange(0, old(buffer)@.len() as int));
            } else {
                assert(final(buffer)@ =~= old(buffer)@ + container_bytes(*container)->Ok_0);
            }
        }
        res
    }

    fn get_container_len(&self, container: &Container) -> (r: usize)
        ensures
            match container_bytes(*container) {
                Ok(b) => r == saturated(b.len() as int),
                Err(_) => r == 0,
            },
    {
        let b = self.get_body_len(&container.fields);
        if b == 0 {
            return 0;
        }
        let h = self.get_header_len(&container.header);
        h.saturating_add(b)
    }

    fn encode_header(&self, buffer: &mut Vec<u8>, header: &Header)
        ensures
            final(buffer)@ == old(buffer)@ + header_text(*header),
    {
        buffer.push(LT);
        push_int(buffer, header.version as i64);
        buffer.push(COMMA);
        push_int(buffer, header.total_field as i64);
        buffer.push(COMMA);
        push_int(buffer, header.depth as i64);
        buffer.push(COMMA);
        push_int(buffer, header.key as i64);
        buffer.push(COMMA);
        push_int(buffer, header.schema_version as i64);
        buffer.push(COMMA);
        push_int(buffer, header.ext_version as i64);
        buffer.push(GT);
        assert(final(buffer)@ =~= old(buffer)@ + header_text(*header));
    }

    fn get_header_len(&self, header: &Header) -> (r: usize)
        ensures
            r == header_text(*header).len(),
    {
        let mut text: Vec<u8> = Vec::new();
        self.encode_header(&mut text, header);
        proof {
            assert(text@ =~= header_text(*header));
        }
        text.len()
    }

    fn encode_body(&self, buffer: &mut Vec<u8>, fields: &Vec<Field>) -> (r: Result<(), crate::error::Error>)
        ensures
            match fields_bytes(fields@, fields@.len() as int) {
                Ok(b) => r is Ok && final(buffer)@ == old(buffer)@ + seq![OPEN_SQUARE] + b + seq![CLOSE_SQUARE],
                Err(f) => (r matches Err(e) && encode_error(e, f)) && extends(final(buffer)@, old(buffer)@),
            },
        decreases fields, 0int,
    {
        let ghost fs = fields@;
        buffer.push(OPEN_SQUARE);
        let mut i: usize = 0;
        while i < fields.len()
            invariant
                fs == fields@,
                i <= fs.len(),
                fields_bytes(fs, i as int) is Ok,
                buffer@ == old(buffer)@ + seq![OPEN_SQUARE] + fields_bytes(fs, i as int)->Ok_0,
            decreases fs.len() - i,
        {
            let ghost before = buffer@;
            let bytes = match self.encode_field(&fields[i]) {
                Ok(b) => b,
                Err(e) => {
                    proof {
                        lemma_fields_bytes_fail(fs, i + 1, fs.len() as int);
                        assert(buffer@.subrange(0, old(buffer)@.len() as int) =~= old(buffer)@);
                    }
                    return Err(e);
                },
            };
            if i > 0 {
                buffer.push(COMMA);
            }
            push_bytes(buffer, bytes.as_slice());
            proof {
                assert(buffer@ =~= old(buffer)@ + seq![OPEN_SQUARE] + fields_bytes(fs, i + 1)->Ok_0);
            }
            i = i + 1;
        }
        buffer.push(CLOSE_SQUARE);
        Ok(())
    }

    fn get_body_len(&self, fields: &Vec<Field>) -> (r: usize)
        ensures
            match fields_bytes(fields@, fields@.len() as int) {
                Ok(b) => r == b.len() + 2,
                Err(_) => r == 0,
            },
    {
        let mut text: Vec<u8> = Vec::new();
        match self.encode_body(&mut text, fields) {
            Ok(()) => text.len(),
            Err(_) => 0,
        }
    }
}

} // verus!

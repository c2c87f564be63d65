use crate::cmdc::CmdcCodec;
use crate::error::Error;
use crate::numeral::{int_text, parse_int, parse_signed, parse_unsigned, push_int, push_nat};
use crate::text::{lemma_ascii_valid_utf8, utf8_str};
use crate::wire::{
    bad_number_text, first_colon, number_of, string_decode, string_fault_text, string_text,
    StringFault, CLOSE_ROUND, COLON, OPEN_ROUND,
};
use crate::cmdc::decode::fresh_containers;
use crate::cmdc::encode::push_bytes;
use crate::mdd::Containers;
use crate::cmdc::encode::{containers_encoding, encode_error};
use crate::wire::{containers_decode, fault_text};
use vstd::prelude::*;
use vstd::string::StringSliceAdditionalSpecFns;
use vstd::utf8::{decode_utf8, valid_utf8};

verus! {

/// True when `r` is what reading `data` as a decimal integer of the range
/// `lo..=hi` gives: its value, an error naming why it is no such integer, or
/// a UTF-8 error for bytes that are not text.
pub open spec fn int_outcome(data: Seq<u8>, lo: int, hi: int, r: Result<int, Error>) -> bool {
    if !valid_utf8(data) {
        r matches Err(e) && e is Utf8Error
    } else {
        match parse_int(data, lo, hi) {
            Ok(v) => r == Ok::<int, Error>(v),
            Err(k) => r matches Err(e) && e == Error::ParseIntError(k),
        }
    }
}

/// True when `r` is what reading `data` as a length-prefixed string gives:
/// the characters of its payload, or the error that says why it is none.
pub open spec fn string_outcome(data: Seq<u8>, r: Result<Seq<char>, Error>) -> bool {
    match string_decode(data) {
        Ok(p) => r == Ok::<Seq<char>, Error>(decode_utf8(p)),
        Err(StringFault::BadUtf8) => r matches Err(e) && e is Utf8Error,
        Err(StringFault::BadLength(t)) => r matches Err(e) && if valid_utf8(t) {
            e.is_decode(bad_number_text(t))
        } else {
            e is Utf8Error
        },
        Err(f) => r matches Err(e) && e.is_decode(string_fault_text(f)),
    }
}

pub open spec fn as_int<T: Integer>(r: Result<T, Error>) -> Result<int, Error> {
    match r {
        Ok(v) => Ok(v as int),
        Err(e) => Err(e),
    }
}

/// The decimal text of a number, as a string.
fn number_string(n: i64) -> (r: String)
    ensures
        r@ == decode_utf8(int_text(n as int)),
{
    let mut digits: Vec<u8> = Vec::new();
    push_int(&mut digits, n);
    proof {
        assert(digits@ =~= int_text(n as int));
        if n < 0 {
            let m = (-n) as nat;
            lemma_digits_ascii(m);
            assert forall|i: int| 0 <= i < digits@.len() implies #[trigger] digits@[i] < 128 by {
                if i > 0 {
                    assert(digits@[i] == crate::numeral::nat_text(m)[i - 1]);
                }
            }
        } else {
            lemma_digits_ascii(n as nat);
        }
        lemma_ascii_valid_utf8(digits@);
    }
    match utf8_str(digits.as_slice()) {
        Ok(s) => String::from_str(s),
        Err(_) => String::new(),
    }
}

proof fn lemma_digits_ascii(n: nat)
    ensures
        forall|i: int| 0 <= i < crate::numeral::nat_text(n).len() ==> #[trigger] crate::numeral::nat_text(n)[i] < 128,
    decreases n,
{
    let t = crate::numeral::nat_text(n);
    if n >= 10 {
        let p = crate::numeral::nat_text(n / 10);
        lemma_digits_ascii(n / 10);
        assert(t == p.push((48 + n % 10) as u8));
        assert forall|i: int| 0 <= i < t.len() implies #[trigger] t[i] < 128 by {
            if i < p.len() {
                assert(t[i] == p[i]);
            }
        }
    } else {
        assert(t == seq![(48 + n) as u8]);
    }
}

impl CmdcCodec {
    fn read_signed(data: &[u8], lo: i64, hi: i64) -> (r: Result<i64, Error>)
        requires
            lo <= -9,
            hi >= 9,
        ensures
            int_outcome(data@, lo as int, hi as int, as_int(r)),
            r matches Ok(v) ==> lo <= v <= hi,
    {
        if let Err(e) = utf8_str(data) {
            return Err(Error::Utf8Error(e));
        }
        match parse_signed(data, lo, hi) {
            Ok(v) => Ok(v),
            Err(k) => Err(Error::ParseIntError(k)),
        }
    }

    fn read_unsigned(data: &[u8], hi: u64) -> (r: Result<u64, Error>)
        requires
            hi >= 9,
        ensures
            int_outcome(data@, 0, hi as int, as_int(r)),
            r matches Ok(v) ==> v <= hi,
    {
        if let Err(e) = utf8_str(data) {
            return Err(Error::Utf8Error(e));
        }
        match parse_unsigned(data, hi) {
            Ok(v) => Ok(v),
            Err(k) => Err(Error::ParseIntError(k)),
        }
    }

    pub fn decode_int8(&self, data: &[u8]) -> (r: Result<i8, Error>)
        ensures
            int_outcome(data@, i8::MIN as int, i8::MAX as int, as_int(r)),
    {
        match Self::read_signed(data, -0x80, 0x7f) {
            Ok(v) => Ok(v as i8),
            Err(e) => Err(e),
        }
    }

    pub fn encode_int8(&self, v: i8) -> (r: Result<Vec<u8>, Error>)
        ensures
            r matches Ok(b) && b@ == int_text(v as int),
    {
        let mut b: Vec<u8> = Vec::new();
        push_int(&mut b, v as i64);
        Ok(b)
    }

    pub fn decode_int16(&self, data: &[u8]) -> (r: Result<i16, Error>)
        ensures
            int_outcome(data@, i16::MIN as int, i16::MAX as int, as_int(r)),
    {
        match Self::read_signed(data, -0x8000, 0x7fff) {
            Ok(v) => Ok(v as i16),
            Err(e) => Err(e),
        }
    }

    pub fn encode_int16(&self, v: i16) -> (r: Result<Vec<u8>, Error>)
        ensures
            r matches Ok(b) && b@ == int_text(v as int),
    {
        let mut b: Vec<u8> = Vec::new();
        push_int(&mut b, v as i64);
        Ok(b)
    }

    pub fn decode_int32(&self, data: &[u8]) -> (r: Result<i32, Error>)
        ensures
            int_outcome(data@, i32::MIN as int, i32::MAX as int, as_int(r)),
    {
        match Self::read_signed(data, -0x8000_0000, 0x7fff_ffff) {
            Ok(v) => Ok(v as i32),
            Err(e) => Err(e),
        }
    }

    pub fn encode_int32(&self, v: i32) -> (r: Result<Vec<u8>, Error>)
        ensures
            r matches Ok(b) && b@ == int_text(v as int),
    {
        let mut b: Vec<u8> = Vec::new();
        push_int(&mut b, v as i64);
        Ok(b)
    }

    pub fn decode_int64(&self, data: &[u8]) -> (r: Result<i64, Error>)
        ensures
            int_outcome(data@, i64::MIN as int, i64::MAX as int, as_int(r)),
    {
        Self::read_signed(data, i64::MIN, i64::MAX)
    }

    pub fn encode_int64(&self, v: i64) -> (r: Result<Vec<u8>, Error>)
        ensures
            r matches Ok(b) && b@ == int_text(v as int),
    {
        let mut b: Vec<u8> = Vec::new();
        push_int(&mut b, v);
        Ok(b)
    }

    pub fn decode_uint8(&self, data: &[u8]) -> (r: Result<u8, Error>)
        ensures
            int_outcome(data@, 0, u8::MAX as int, as_int(r)),
    {
        match Self::read_unsigned(data, 0xff) {
            Ok(v) => Ok(v as u8),
            Err(e) => Err(e),
        }
    }

    pub fn encode_uint8(&self, v: u8) -> (r: Result<Vec<u8>, Error>)
        ensures
            r matches Ok(b) && b@ == int_text(v as int),
    {
        let mut b: Vec<u8> = Vec::new();
        push_nat(&mut b, v as u64);
        Ok(b)
    }

    pub fn decode_uint16(&self, data: &[u8]) -> (r: Result<u16, Error>)
        ensures
            int_outcome(data@, 0, u16::MAX as int, as_int(r)),
    {
        match Self::read_unsigned(data, 0xffff) {
            Ok(v) => Ok(v as u16),
            Err(e) => Err(e),
        }
    }

    pub fn encode_uint16(&self, v: u16) -> (r: Result<Vec<u8>, Error>)
        ensures
            r matches Ok(b) && b@ == int_text(v as int),
    {
        let mut b: Vec<u8> = Vec::new();
        push_nat(&mut b, v as u64);
        Ok(b)
    }

    pub fn decode_uint32(&self, data: &[u8]) -> (r: Result<u32, Error>)
        ensures
            int_outcome(data@, 0, u32::MAX as int, as_int(r)),
    {
        match Self::read_unsigned(data, 0xffff_ffff) {
            Ok(v) => Ok(v as u32),
            Err(e) => Err(e),
        }
    }

    pub fn encode_uint32(&self, v: u32) -> (r: Result<Vec<u8>, Error>)
        ensures
            r matches Ok(b) && b@ == int_text(v as int),
    {
        let mut b: Vec<u8> = Vec::new();
        push_nat(&mut b, v as u64);
        Ok(b)
    }

    pub fn decode_uint64(&self, data: &[u8]) -> (r: Result<u64, Error>)
        ensures
            int_outcome(data@, 0, u64::MAX as int, as_int(r)),
    {
        Self::read_unsigned(data, u64::MAX)
    }

    pub fn encode_uint64(&self, v: u64) -> (r: Result<Vec<u8>, Error>)
        ensures
            r matches Ok(b) && b@ == int_text(v as int),
    {
        let mut b: Vec<u8> = Vec::new();
        push_nat(&mut b, v);
        Ok(b)
    }
    /// Reads a length-prefixed string `(n:payload)`: its payload, as text.
    pub fn decode_string<'a>(&self, data: &'a [u8]) -> (r: Result<&'a str, Error>)
        ensures
            string_outcome(
                data@,
                match r {
                    Ok(s) => Ok(s@),
                    Err(e) => Err(e),
                },
            ),
    {
        if data.len() == 0 {
            proof {
                reveal_strlit("");
                assert(""@ =~= Seq::<char>::empty());
                assert(valid_utf8(Seq::<u8>::empty()));
                assert(decode_utf8(Seq::<u8>::empty()) =~= Seq::<char>::empty());
            }
            return Ok("");
        }
        if data[0] != OPEN_ROUND {
            return Err(Error::DecodeError(String::from_str("Invalid string value")));
        }
        let mut idx: usize = 1;
        while idx < data.len()
            invariant
                1 <= idx <= data@.len(),
                data@[0] == OPEN_ROUND,
                first_colon(data@, 1) == first_colon(data@, idx as int),
            decreases data@.len() - idx,
        {
            if data[idx] == COLON {
                let t = &data[1..idx];
                proof {
                    if number_of(t@) is Ok {
                        crate::numeral::lemma_parse_int_ascii(t@, crate::wire::i32_min(), crate::wire::i32_max());
                        lemma_ascii_valid_utf8(t@);
                    }
                }
                let len = match Self::bytes_to_int(t) {
                    Ok(v) => v,
                    Err(e) => return Err(e),
                };
                if len < 0 || len as usize >= data.len() - (idx + 1) {
                    let mut m = String::from_str("Invalid string length, ");
                    let n = number_string(len as i64);
                    m.append(n.as_str());
                    m.append(" is too long");
                    return Err(Error::DecodeError(m));
                }
                let end = idx + 1 + len as usize;
                if data[end] != CLOSE_ROUND {
                    let mut m = String::from_str("Invalid string length, ");
                    let n = number_string(len as i64);
                    m.append(n.as_str());
                    m.append(" is too short");
                    return Err(Error::DecodeError(m));
                }
                return match utf8_str(&data[idx + 1..end]) {
                    Ok(s) => Ok(s),
                    Err(e) => Err(Error::Utf8Error(e)),
                };
            }
            idx = idx + 1;
        }
        Err(Error::DecodeError(String::from_str("Invalid string value")))
    }

    /// Writes `s` as a length-prefixed string `(n:s)`, `n` its length in bytes.
    pub fn encode_string(&self, s: &str) -> (r: Result<Vec<u8>, Error>)
        ensures
            r matches Ok(b) && b@ == string_text(s.spec_bytes()),
    {
        let mut data: Vec<u8> = Vec::new();
        data.push(OPEN_ROUND);
        let bytes = s.as_bytes();
        let n = bytes.len();
        push_nat(&mut data, n as u64);
        data.push(COLON);
        push_bytes(&mut data, bytes);
        data.push(CLOSE_ROUND);
        assert(data@ =~= string_text(s.spec_bytes()));
        Ok(data)
    }
    /// Decodes the containers of a field that holds a nested container.
    pub fn decode_struct<'a>(&self, data: &'a [u8]) -> (r: Result<Containers<'a>, Error>)
        ensures
            match containers_decode(data@) {
                Ok(rs) => r matches Ok(cs) && fresh_containers(cs, rs),
                Err(f) => r matches Err(e) && e.is_decode(fault_text(f)),
            },
    {
        self.decode_containers(data)
    }

    /// Writes the containers of a nested container field.
    pub fn encode_struct(&self, containers: &Containers) -> (r: Result<Vec<u8>, Error>)
        ensures
            match containers_encoding(*containers) {
                Ok(b) => r matches Ok(out) && out@ == b,
                Err(f) => r matches Err(e) && encode_error(e, f),
            },
        decreases containers, 2int,
    {
        let mut b: Vec<u8> = Vec::new();
        match self.encode_containers(&mut b, containers) {
            Ok(()) => {
                assert(b@ =~= containers_encoding(*containers)->Ok_0);
                Ok(b)
            },
            Err(e) => Err(e),
        }
    }
}

} // verus!

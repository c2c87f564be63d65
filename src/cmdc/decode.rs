use crate::cmdc::CmdcCodec;
use crate::error::Error;
use crate::mdd::{Container, ContainerModel, Containers, Field, FieldModel, FieldType, Header};
use crate::numeral::parse_signed;
use crate::text::{char_string, lemma_ascii_valid_utf8, utf8_str};
use crate::wire::{
    bad_number_text, body_decode, container_decode, containers_decode, containers_from, fault_text,
    lemma_body_run_progress, lemma_container_progress, lemma_header_scan_progress, Fault,
    ReadContainer, body_fault_text, body_run, body_start, header_decode,
    header_fault_text, header_of, header_scan, number_of, pending, span_field, BodyFault, BodyScan,
    FieldSpan, HeaderFault, CLOSE_CURLY, CLOSE_ROUND, CLOSE_SQUARE, COLON, COMMA, GT, LT, MINUS,
    OPEN_CURLY, OPEN_ROUND, OPEN_SQUARE,
};
use vstd::prelude::*;
use vstd::utf8::{decode_utf8, valid_utf8};

verus! {

/// True when `f` is a field just decoded as `m`: its raw bytes and marks,
/// null when it has no byte, with no type and no value yet.
pub open spec fn fresh_field(f: Field, m: FieldModel) -> bool {
    &&& f.model() == m
    &&& f.is_null == (m.data.len() == 0)
    &&& f.field_type == FieldType::Unknown
    &&& f.value is None
    &&& f.codec == Some(CmdcCodec {})
}

/// True when `f` is the field that the body scan gives for the span `s` of
/// `body`.
pub open spec fn decoded_field(f: Field, body: Seq<u8>, s: FieldSpan) -> bool {
    fresh_field(f, span_field(body, s))
}

/// True when `c` is a container just decoded as `m`.
pub open spec fn fresh_container(c: Container, m: ContainerModel) -> bool {
    &&& c.header == m.header
    &&& c.fields@.len() == m.fields.len()
    &&& forall|k: int| 0 <= k < m.fields.len() ==> fresh_field(#[trigger] c.fields@[k], m.fields[k])
}

/// True when `cs` holds, in order, the containers just decoded as `rs`.
pub open spec fn fresh_containers(cs: Containers, rs: Seq<ReadContainer>) -> bool {
    &&& cs.containers@.len() == rs.len()
    &&& forall|i: int| 0 <= i < rs.len() ==> fresh_container(#[trigger] cs.containers@[i], rs[i].container)
}

fn decode_error(m: &str) -> (e: Error)
    ensures
        e.is_decode(m@),
{
    Error::DecodeError(String::from_str(m))
}

impl CmdcCodec {
    /// Reads `data` as a decimal `i32`.
    pub fn bytes_to_int(data: &[u8]) -> (r: Result<i32, Error>)
        ensures
            r is Ok <==> valid_utf8(data@) && number_of(data@) is Ok,
            r matches Ok(v) ==> number_of(data@) == Ok::<int, crate::error::IntErrorKind>(v as int),
            r matches Err(e) ==> if valid_utf8(data@) {
                e.is_decode(bad_number_text(data@))
            } else {
                e is Utf8Error
            },
    {
        let s = match utf8_str(data) {
            Ok(s) => s,
            Err(e) => return Err(Error::Utf8Error(e)),
        };
        match parse_signed(data, -0x8000_0000, 0x7fff_ffff) {
            Ok(v) => Ok(v as i32),
            Err(_) => {
                let mut m = String::from_str("Invalid digit found in '");
                m.append(s);
                m.append("'");
                Err(Error::DecodeError(m))
            },
        }
    }

    /// Reads the number text `data[mark..end]` of a header.
    fn header_number(data: &[u8], mark: usize, end: usize) -> (r: Result<i32, Error>)
        requires
            mark <= end <= data@.len(),
            forall|k: int| mark <= k < end ==> (48 <= #[trigger] data@[k] <= 57) || data@[k] == 45,
        ensures
            r is Ok <==> number_of(data@.subrange(mark as int, end as int)) is Ok,
            r matches Ok(v) ==> number_of(data@.subrange(mark as int, end as int)) == Ok::<
                int,
                crate::error::IntErrorKind,
            >(v as int),
            r matches Err(e) ==> e.is_decode(
                header_fault_text(HeaderFault::BadNumber(data@.subrange(mark as int, end as int))),
            ),
    {
        let t = &data[mark..end];
        proof {
            lemma_ascii_valid_utf8(t@);
        }
        match Self::bytes_to_int(t) {
            Ok(v) => Ok(v),
            Err(err) => {
                let mut m = String::from_str("Invalid cMDC header, ");
                let et = err.to_string();
                m.append(et.as_str());
                Err(Error::DecodeError(m))
            },
        }
    }

    /// Reads the header at the start of `data`: the header and the number of
    /// bytes it takes.
    pub fn decode_header(&self, data: &[u8]) -> (r: Result<(Header, usize), Error>)
        ensures
            match header_decode(data@) {
                Ok((h, n)) => r matches Ok((h2, n2)) && h2 == h && n2 == n,
                Err(f) => r matches Err(e) && e.is_decode(header_fault_text(f)),
            },
    {
        let mut header = Header {
            version: 0,
            total_field: 0,
            depth: 0,
            key: 0,
            schema_version: 0,
            ext_version: 0,
        };
        if data.len() == 0 {
            return Err(decode_error("Invalid cMDC header, no header"));
        }
        if data[0] != LT {
            return Err(decode_error("Invalid cMDC header, first character must be '<'"));
        }
        let mut field_number: usize = 0;
        let mut idx: usize = 1;
        let mut mark: usize = 1;
        let ghost mut texts: Seq<Seq<u8>> = seq![];
        while idx < data.len()
            invariant
                1 <= mark <= idx <= data@.len(),
                data@[0] == LT,
                field_number == texts.len() <= 5,
                header_scan(data@, 1, 1, seq![]) == header_scan(data@, idx as int, mark as int, texts),
                forall|k: int| mark <= k < idx ==> (48 <= #[trigger] data@[k] <= 57) || data@[k] == 45,
                forall|j: int| 0 <= j < texts.len() ==> number_of(#[trigger] texts[j]) is Ok,
                field_number > 0 ==> header.version == number_of(texts[0])->Ok_0 as u8,
                field_number > 1 ==> header.total_field == number_of(texts[1])->Ok_0 as u8,
                field_number > 2 ==> header.depth == number_of(texts[2])->Ok_0 as i8,
                field_number > 3 ==> header.key == number_of(texts[3])->Ok_0 as i32,
                field_number > 4 ==> header.schema_version == number_of(texts[4])->Ok_0 as u16,
            decreases data@.len() - idx,
        {
            let c = data[idx];
            if c == GT {
                if field_number != 5 {
                    return Err(decode_error("Invalid cMDC header, 6 fields expected"));
                }
                let v = Self::header_number(data, mark, idx)?;
                header.ext_version = v as u16;
                proof {
                    let t = data@.subrange(mark as int, idx as int);
                    let all = texts.push(t);
                    assert(all[5] == t);
                    assert(forall|j: int| 0 <= j < 5 ==> all[j] == texts[j]);
                    assert(header == header_of(all));
                }
                return Ok((header, idx + 1));
            } else if c == COMMA {
                let v = Self::header_number(data, mark, idx)?;
                if field_number == 0 {
                    header.version = v as u8;
                } else if field_number == 1 {
                    header.total_field = v as u8;
                } else if field_number == 2 {
                    header.depth = v as i8;
                } else if field_number == 3 {
                    header.key = v;
                } else if field_number == 4 {
                    header.schema_version = v as u16;
                } else {
                    return Err(decode_error("Invalid cMDC header, 6 fields expected"));
                }
                proof {
                    let t = data@.subrange(mark as int, idx as int);
                    assert(texts.push(t)[texts.len() as int] == t);
                    assert(forall|j: int| 0 <= j < texts.len() ==> texts.push(t)[j] == texts[j]);
                    texts = texts.push(t);
                }
                field_number = field_number + 1;
                mark = idx + 1;
                idx = idx + 1;
            } else if (c >= 48 && c <= 57) || c == MINUS {
                idx = idx + 1;
            } else {
                let mut m = String::from_str("Invalid cMDC character '");
                let cs = char_string(c as char);
                m.append(cs.as_str());
                m.append("' in header, numeric expected");
                return Err(Error::DecodeError(m));
            }
        }
        Err(decode_error("Invalid cMDC header, missing '>'"))
    }
    /// The error for a string length `t` that cannot be used.
    fn length_error(t: &[u8]) -> (e: Error)
        requires
            valid_utf8(t@),
        ensures
            e.is_decode(body_fault_text(BodyFault::BadLength(t@))),
    {
        let mut m = String::from_str("Invalid string field, Invalid digit found in '");
        if let Ok(s) = utf8_str(t) {
            m.append(s);
        }
        m.append("'");
        proof {
            assert(body_fault_text(BodyFault::BadLength(t@)) =~= "Invalid string field, Invalid digit found in '"@ + decode_utf8(t@) + "'"@) by {
                reveal_strlit("Invalid string field, Invalid digit found in '");
                reveal_strlit("Invalid string field, ");
                reveal_strlit("Invalid digit found in '");
            }
        }
        Error::DecodeError(m)
    }

    /// Makes the field for `data[start..end]`.
    fn make_field<'a>(data: &'a [u8], start: usize, end: usize, is_multi: bool, is_container: bool) -> (f: Field<'a>)
        requires
            start <= end <= data@.len(),
        ensures
            decoded_field(f, data@, FieldSpan { start: start as int, end: end as int, is_multi, is_container }),
    {
        let field_data = &data[start..end];
        Field {
            data: field_data,
            field_type: FieldType::Unknown,
            value: None,
            codec: Some(CmdcCodec {}),
            is_multi,
            is_container,
            is_null: field_data.len() == 0,
        }
    }

    /// Splits the body at the start of `data` into its top-level fields: the
    /// fields and the number of bytes the body takes.
    pub fn decode_body<'a>(&self, data: &'a [u8]) -> (r: Result<(Vec<Field<'a>>, usize), Error>)
        ensures
            match body_decode(data@) {
                Ok((spans, n)) => r matches Ok((fs, m)) && m == n && fs@.len() == spans.len() && forall|
                    k: int,
                | 0 <= k < spans.len() ==> decoded_field(#[trigger] fs@[k], data@, spans[k]),
                Err(f) => r matches Err(e) && e.is_decode(body_fault_text(f)),
            },
    {
        let mut fields: Vec<Field<'a>> = Vec::new();
        if data.len() == 0 {
            return Err(decode_error("Invalid cMDC body, no body"));
        }
        if data[0] != OPEN_SQUARE {
            return Err(decode_error("Invalid cMDC body, first character must be '['"));
        }
        let mut idx: usize = 1;
        let mut mark: usize = 1;
        let mut round_mark: usize = 0;
        let mut in_string = false;
        let mut square: usize = 1;
        // depths of `<` and `{`, kept as counts of openers and closers
        let mut angle_open: usize = 0;
        let mut angle_close: usize = 0;
        let mut curly_open: usize = 0;
        let mut curly_close: usize = 0;
        let mut is_multi = false;
        let mut is_container = false;
        let ghost mut spans: Seq<FieldSpan> = seq![];
        while idx < data.len()
            invariant
                1 <= mark <= idx <= data@.len(),
                data@[0] == OPEN_SQUARE,
                1 <= square <= idx,
                angle_open <= idx,
                angle_close <= idx,
                curly_open <= idx,
                curly_close <= idx,
                in_string && round_mark != 0 ==> 1 <= round_mark < idx,
                in_string && round_mark != 0 ==> forall|k: int|
                    round_mark < k < idx ==> 48 <= #[trigger] data@[k] <= 57,
                body_run(data@, body_start()) == body_run(
                    data@,
                    BodyScan {
                        pos: idx as int,
                        mark: mark as int,
                        len_mark: round_mark as int,
                        in_string,
                        square: square as int,
                        angle: angle_open - angle_close,
                        curly: curly_open - curly_close,
                        is_multi,
                        is_container,
                        fields: spans,
                    },
                ),
                fields@.len() == spans.len(),
                forall|k: int| 0 <= k < spans.len() ==> decoded_field(#[trigger] fields@[k], data@, spans[k]),
            decreases data@.len() - idx,
        {
            let c = data[idx];
            if in_string {
                if c == CLOSE_ROUND {
                    in_string = false;
                } else if round_mark == 0 {
                    return Err(decode_error("Invalid cMDC body, mismatch string length"));
                } else if c == COLON {
                    let t = &data[round_mark + 1..idx];
                    proof {
                        lemma_ascii_valid_utf8(t@);
                    }
                    let len = match Self::bytes_to_int(t) {
                        Ok(v) => v,
                        Err(_) => return Err(Self::length_error(t)),
                    };
                    if len < 0 {
                        return Err(Self::length_error(t));
                    }
                    let n = len as usize;
                    // skip the payload, unread
                    if n < data.len() - (idx + 1) {
                        idx = idx + n;
                    } else {
                        idx = data.len() - 1;
                    }
                    round_mark = 0;
                } else if c < 48 || c > 57 {
                    let mut m = String::from_str("Invalid character '");
                    let cs = char_string(c as char);
                    m.append(cs.as_str());
                    m.append("', numeric expected for string length");
                    return Err(Error::DecodeError(m));
                }
                idx = idx + 1;
            } else {
                if c == OPEN_ROUND {
                    round_mark = idx;
                    in_string = true;
                } else if c == OPEN_SQUARE {
                    square = square + 1;
                } else if c == CLOSE_SQUARE {
                    square = square - 1;
                } else if c == LT {
                    is_container = true;
                    angle_open = angle_open + 1;
                } else if c == GT {
                    angle_close = angle_close + 1;
                } else if c == OPEN_CURLY {
                    curly_open = curly_open + 1;
                    is_multi = true;
                } else if c == CLOSE_CURLY {
                    curly_close = curly_close + 1;
                } else if c == COMMA && square == 1 && angle_open == angle_close && curly_open == curly_close {
                    let field = Self::make_field(data, mark, idx, is_multi, is_container);
                    proof {
                        spans = spans.push(FieldSpan { start: mark as int, end: idx as int, is_multi, is_container });
                    }
                    fields.push(field);
                    mark = idx + 1;
                    is_multi = false;
                    is_container = false;
                }
                if square == 0 {
                    let field = Self::make_field(data, mark, idx, is_multi, is_container);
                    proof {
                        spans = spans.push(FieldSpan { start: mark as int, end: idx as int, is_multi, is_container });
                    }
                    fields.push(field);
                    return Ok((fields, idx + 1));
                }
                idx = idx + 1;
            }
        }
        Err(decode_error("Invalid cMDC body, no end of body"))
    }
    /// Decodes every container of `data`, one right after the other, until
    /// the buffer is used up. A single malformed container fails it all.
    pub fn decode_containers<'a>(&self, data: &'a [u8]) -> (r: Result<Containers<'a>, Error>)
        ensures
            match containers_decode(data@) {
                Ok(rs) => r matches Ok(cs) && fresh_containers(cs, rs),
                Err(f) => r matches Err(e) && e.is_decode(fault_text(f)),
            },
    {
        let mut containers: Vec<Container<'a>> = Vec::new();
        let mut idx: usize = 0;
        let ghost mut read: Seq<ReadContainer> = seq![];
        while idx < data.len()
            invariant
                idx <= data@.len(),
                containers_decode(data@) == match containers_from(data@, idx as int) {
                    Ok(rest) => Ok(read + rest),
                    Err(f) => Err(f),
                },
                containers@.len() == read.len(),
                forall|i: int| 0 <= i < read.len() ==> fresh_container(#[trigger] containers@[i], read[i].container),
            decreases data@.len() - idx,
        {
            let ghost before = read;
            let sub = &data[idx..data.len()];
            proof {
                lemma_container_progress(sub@);
            }
            let (container, offset) = match self.decode_container(sub) {
                Ok(p) => p,
                Err(e) => return Err(e),
            };
            proof {
                let rc = container_decode(sub@)->Ok_0.0;
                read = read.push(rc);
                match containers_from(data@, idx + offset) {
                    Ok(rest) => {
                        assert(before + (seq![rc] + rest) =~= read + rest);
                    },
                    Err(f) => {},
                }
            }
            idx = idx + offset;
            containers.push(container);
        }
        proof {
            assert(read + seq![] =~= read);
        }
        Ok(Containers { containers })
    }

    /// Decodes the container at the start of `data`: the container and the
    /// number of bytes it takes.
    fn decode_container<'a>(&self, data: &'a [u8]) -> (r: Result<(Container<'a>, usize), Error>)
        ensures
            match container_decode(data@) {
                Ok((rc, n)) => r matches Ok((c, m)) && m == n && fresh_container(c, rc.container),
                Err(f) => r matches Err(e) && e.is_decode(fault_text(f)),
            },
    {
        let (header, offset) = match self.decode_header(data) {
            Ok(p) => p,
            Err(e) => return Err(e),
        };
        proof {
            lemma_header_scan_progress(data@, 1, 1, seq![]);
        }
        let slice = &data[offset..data.len()];
        proof {
            lemma_body_run_progress(slice@, body_start());
        }
        let (fields, len) = match self.decode_body(slice) {
            Ok(p) => p,
            Err(e) => return Err(e),
        };
        proof {
            assert(slice@ == data@.subrange(offset as int, data@.len() as int));
        }
        Ok((Container { header, fields }, offset + len))
    }
}

} // verus!

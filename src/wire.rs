//! The cMDC wire format, stated as spec functions: how a header and a body
//! are read byte by byte, what each failure is called, and how a decoded
//! tree is written back.
use crate::mdd::{ContainerModel, FieldModel, Header};
use crate::numeral::{int_text, parse_int};
use vstd::prelude::*;
use vstd::utf8::{decode_utf8, valid_utf8};

verus! {

/// The bytes that the format gives a meaning.
pub const LT: u8 = 60;
pub const GT: u8 = 62;
pub const COMMA: u8 = 44;
pub const MINUS: u8 = 45;
pub const COLON: u8 = 58;
pub const OPEN_SQUARE: u8 = 91;
pub const CLOSE_SQUARE: u8 = 93;
pub const OPEN_ROUND: u8 = 40;
pub const CLOSE_ROUND: u8 = 41;
pub const OPEN_CURLY: u8 = 123;
pub const CLOSE_CURLY: u8 = 125;

pub open spec fn i32_min() -> int {
    -0x8000_0000
}

pub open spec fn i32_max() -> int {
    0x7fff_ffff
}

/// What a number of the format reads as: a decimal `i32`.
pub open spec fn number_of(t: Seq<u8>) -> Result<int, crate::error::IntErrorKind> {
    parse_int(t, i32_min(), i32_max())
}

/// The message for a number that could not be read from the text `t`.
pub open spec fn bad_number_text(t: Seq<u8>) -> Seq<char> {
    "Invalid digit found in '"@ + decode_utf8(t) + "'"@
}

// ---------------------------------------------------------------- header

pub enum HeaderFault {
    /// The buffer is empty.
    Empty,
    /// The first byte is not `<`.
    BadStart,
    /// A byte that is no digit, `-`, `,` or `>`.
    BadChar(u8),
    /// No `>` closes the header.
    MissingEnd,
    /// The header does not hold six numbers.
    FieldCount,
    /// A number's text is no `i32`.
    BadNumber(Seq<u8>),
}

pub open spec fn header_fault_text(f: HeaderFault) -> Seq<char> {
    match f {
        HeaderFault::Empty => "Invalid cMDC header, no header"@,
        HeaderFault::BadStart => "Invalid cMDC header, first character must be '<'"@,
        HeaderFault::BadChar(c) => "Invalid cMDC character '"@ + seq![c as char]
            + "' in header, numeric expected"@,
        HeaderFault::MissingEnd => "Invalid cMDC header, missing '>'"@,
        HeaderFault::FieldCount => "Invalid cMDC header, 6 fields expected"@,
        HeaderFault::BadNumber(t) => "Invalid cMDC header, "@ + bad_number_text(t),
    }
}

/// Reads a header from index `i` on, where the number being read started at
/// `mark` and `texts` are the numbers already closed by a comma. On success,
/// gives the six texts and the index after `>`.
pub open spec fn header_scan(data: Seq<u8>, i: int, mark: int, texts: Seq<Seq<u8>>) -> Result<
    (Seq<Seq<u8>>, int),
    HeaderFault,
>
    decreases data.len() - i,
{
    if i < 0 || i >= data.len() {
        Err(HeaderFault::MissingEnd)
    } else {
        let c = data[i];
        let t = data.subrange(mark, i);
        if c == GT {
            if texts.len() != 5 {
                Err(HeaderFault::FieldCount)
            } else if number_of(t) is Err {
                Err(HeaderFault::BadNumber(t))
            } else {
                Ok((texts.push(t), i + 1))
            }
        } else if c == COMMA {
            if number_of(t) is Err {
                Err(HeaderFault::BadNumber(t))
            } else if texts.len() >= 5 {
                Err(HeaderFault::FieldCount)
            } else {
                header_scan(data, i + 1, i + 1, texts.push(t))
            }
        } else if (48 <= c <= 57) || c == MINUS {
            header_scan(data, i + 1, mark, texts)
        } else {
            Err(HeaderFault::BadChar(c))
        }
    }
}

/// The header that six number texts give: each is read as an `i32`, then
/// cut to its field's width.
pub open spec fn header_of(texts: Seq<Seq<u8>>) -> Header {
    Header {
        version: number_of(texts[0])->Ok_0 as u8,
        total_field: number_of(texts[1])->Ok_0 as u8,
        depth: number_of(texts[2])->Ok_0 as i8,
        key: number_of(texts[3])->Ok_0 as i32,
        schema_version: number_of(texts[4])->Ok_0 as u16,
        ext_version: number_of(texts[5])->Ok_0 as u16,
    }
}

/// A header at the start of `data`, and the number of bytes it takes.
pub open spec fn header_decode(data: Seq<u8>) -> Result<(Header, int), HeaderFault> {
    if data.len() == 0 {
        Err(HeaderFault::Empty)
    } else if data[0] != LT {
        Err(HeaderFault::BadStart)
    } else {
        match header_scan(data, 1, 1, seq![]) {
            Ok((texts, n)) => Ok((header_of(texts), n)),
            Err(f) => Err(f),
        }
    }
}

/// The canonical text of a header.
pub open spec fn header_text(h: Header) -> Seq<u8> {
    seq![LT] + int_text(h.version as int) + seq![COMMA] + int_text(h.total_field as int) + seq![COMMA] + int_text(h.depth as int) + seq![COMMA] + int_text(h.key as int) + seq![COMMA] + int_text(
        h.schema_version as int,
    ) + seq![COMMA] + int_text(h.ext_version as int) + seq![GT]
}

// ------------------------------------------------------------------ body

/// A field as the body scan finds it: its bytes are `start..end` of the body.
pub struct FieldSpan {
    pub start: int,
    pub end: int,
    pub is_multi: bool,
    pub is_container: bool,
}

/// The state of the body scan before the byte at `pos`.
pub struct BodyScan {
    pub pos: int,
    /// Where the pending field starts.
    pub mark: int,
    /// Inside a string: where its `(` stands while the length is read, 0 once
    /// the payload was skipped.
    pub len_mark: int,
    pub in_string: bool,
    pub square: int,
    pub angle: int,
    pub curly: int,
    pub is_multi: bool,
    pub is_container: bool,
    pub fields: Seq<FieldSpan>,
}

pub enum BodyFault {
    /// The buffer is empty.
    Empty,
    /// The first byte is not `[`.
    BadStart,
    /// The buffer ends before the body's `]`.
    Unterminated,
    /// A string's payload is not followed by `)`, or `(` is followed by
    /// something other than a length or `)`.
    LengthMismatch,
    /// A byte of a string's length that is no digit.
    BadLengthChar(u8),
    /// A string's length that is no `i32`.
    BadLength(Seq<u8>),
}

pub open spec fn body_fault_text(f: BodyFault) -> Seq<char> {
    match f {
        BodyFault::Empty => "Invalid cMDC body, no body"@,
        BodyFault::BadStart => "Invalid cMDC body, first character must be '['"@,
        BodyFault::Unterminated => "Invalid cMDC body, no end of body"@,
        BodyFault::LengthMismatch => "Invalid cMDC body, mismatch string length"@,
        BodyFault::BadLengthChar(c) => "Invalid character '"@ + seq![c as char]
            + "', numeric expected for string length"@,
        BodyFault::BadLength(t) => "Invalid string field, "@ + bad_number_text(t),
    }
}

pub enum BodyStep {
    Next(BodyScan),
    Done(Seq<FieldSpan>, int),
    Fail(BodyFault),
}

/// The pending field, ending at `end`.
pub open spec fn pending(s: BodyScan, end: int) -> FieldSpan {
    FieldSpan { start: s.mark, end, is_multi: s.is_multi, is_container: s.is_container }
}

/// What the byte at `s.pos` does to the scan. Inside a string only `)`, the
/// length's digits and the `:` that ends them count, and the payload after
/// `:` is skipped unread. Outside, each delimiter moves its own depth; a
/// comma at the top (`[` depth 1, no `<` or `{` open) closes a field, and
/// the `]` that takes the `[` depth to 0 closes the last field and the body.
pub open spec fn body_step(data: Seq<u8>, s: BodyScan) -> BodyStep {
    let c = data[s.pos];
    if s.in_string {
        if c == CLOSE_ROUND {
            BodyStep::Next(BodyScan { pos: s.pos + 1, in_string: false, ..s })
        } else if s.len_mark == 0 {
            BodyStep::Fail(BodyFault::LengthMismatch)
        } else if c == COLON {
            let t = data.subrange(s.len_mark + 1, s.pos);
            match number_of(t) {
                Ok(n) => if n >= 0 {
                    // a payload that runs past the buffer leaves the scan at its end
                    let next = if s.pos + 1 + n < data.len() {
                        s.pos + 1 + n
                    } else {
                        data.len() as int
                    };
                    BodyStep::Next(BodyScan { pos: next, len_mark: 0, ..s })
                } else {
                    BodyStep::Fail(BodyFault::BadLength(t))
                },
                Err(_) => BodyStep::Fail(BodyFault::BadLength(t)),
            }
        } else if !(48 <= c <= 57) {
            BodyStep::Fail(BodyFault::BadLengthChar(c))
        } else {
            BodyStep::Next(BodyScan { pos: s.pos + 1, ..s })
        }
    } else {
        let s1 = if c == OPEN_ROUND {
            BodyScan { len_mark: s.pos, in_string: true, ..s }
        } else if c == OPEN_SQUARE {
            BodyScan { square: s.square + 1, ..s }
        } else if c == CLOSE_SQUARE {
            BodyScan { square: s.square - 1, ..s }
        } else if c == LT {
            BodyScan { angle: s.angle + 1, is_container: true, ..s }
        } else if c == GT {
            BodyScan { angle: s.angle - 1, ..s }
        } else if c == OPEN_CURLY {
            BodyScan { curly: s.curly + 1, is_multi: true, ..s }
        } else if c == CLOSE_CURLY {
            BodyScan { curly: s.curly - 1, ..s }
        } else if c == COMMA && s.square == 1 && s.angle == 0 && s.curly == 0 {
            BodyScan {
                fields: s.fields.push(pending(s, s.pos)),
                mark: s.pos + 1,
                is_multi: false,
                is_container: false,
                ..s
            }
        } else {
            s
        };
        if s1.square == 0 {
            BodyStep::Done(s1.fields.push(pending(s1, s.pos)), s.pos + 1)
        } else {
            BodyStep::Next(BodyScan { pos: s.pos + 1, ..s1 })
        }
    }
}

#[via_fn]
proof fn body_run_decreases(data: Seq<u8>, s: BodyScan) {
    if 0 <= s.pos < data.len() {
        match body_step(data, s) {
            BodyStep::Next(s2) => {
                assert(data.len() - s2.pos < data.len() - s.pos);
            },
            _ => {},
        }
    }
}

/// Runs the scan from `s` to the end of the body.
pub open spec fn body_run(data: Seq<u8>, s: BodyScan) -> Result<(Seq<FieldSpan>, int), BodyFault>
    decreases data.len() - s.pos,
    via body_run_decreases
{
    if s.pos < 0 || s.pos >= data.len() {
        Err(BodyFault::Unterminated)
    } else {
        match body_step(data, s) {
            BodyStep::Next(s2) => body_run(data, s2),
            BodyStep::Done(fields, n) => Ok((fields, n)),
            BodyStep::Fail(f) => Err(f),
        }
    }
}

pub open spec fn body_start() -> BodyScan {
    BodyScan {
        pos: 1,
        mark: 1,
        len_mark: 0,
        in_string: false,
        square: 1,
        angle: 0,
        curly: 0,
        is_multi: false,
        is_container: false,
        fields: seq![],
    }
}

/// The fields of a body at the start of `data`, and the bytes it takes.
pub open spec fn body_decode(data: Seq<u8>) -> Result<(Seq<FieldSpan>, int), BodyFault> {
    if data.len() == 0 {
        Err(BodyFault::Empty)
    } else if data[0] != OPEN_SQUARE {
        Err(BodyFault::BadStart)
    } else {
        body_run(data, body_start())
    }
}

/// The field that a span of `data` stands for.
pub open spec fn span_field(data: Seq<u8>, s: FieldSpan) -> FieldModel {
    FieldModel {
        data: data.subrange(s.start, s.end),
        is_multi: s.is_multi,
        is_container: s.is_container,
    }
}

// ------------------------------------------------------------ containers

pub enum Fault {
    Header(HeaderFault),
    Body(BodyFault),
}

pub open spec fn fault_text(f: Fault) -> Seq<char> {
    match f {
        Fault::Header(h) => header_fault_text(h),
        Fault::Body(b) => body_fault_text(b),
    }
}

/// A container as read from the buffer: the bytes its header was written
/// with, and the container.
pub struct ReadContainer {
    pub header_bytes: Seq<u8>,
    pub container: ContainerModel,
}

/// The container at the start of `data`, and the bytes it takes: a header,
/// then a body right after it.
pub open spec fn container_decode(data: Seq<u8>) -> Result<(ReadContainer, int), Fault> {
    match header_decode(data) {
        Err(f) => Err(Fault::Header(f)),
        Ok((h, hn)) => {
            let rest = data.subrange(hn, data.len() as int);
            match body_decode(rest) {
                Err(f) => Err(Fault::Body(f)),
                Ok((spans, bn)) => Ok(
                    (
                        ReadContainer {
                            header_bytes: data.subrange(0, hn),
                            container: ContainerModel {
                                header: h,
                                fields: spans.map_values(|s: FieldSpan| span_field(rest, s)),
                            },
                        },
                        hn + bn,
                    ),
                ),
            }
        },
    }
}

pub proof fn lemma_header_scan_progress(data: Seq<u8>, i: int, mark: int, texts: Seq<Seq<u8>>)
    requires
        mark <= i,
    ensures
        header_scan(data, i, mark, texts) matches Ok((t, n)) ==> i < n <= data.len() && t.len()
            == 6,
    decreases data.len() - i,
{
    if 0 <= i < data.len() {
        let c = data[i];
        if c == COMMA && number_of(data.subrange(mark, i)) is Ok && texts.len() < 5 {
            lemma_header_scan_progress(data, i + 1, i + 1, texts.push(data.subrange(mark, i)));
        } else if (48 <= c <= 57) || c == MINUS {
            lemma_header_scan_progress(data, i + 1, mark, texts);
        }
    }
}

pub proof fn lemma_body_run_progress(data: Seq<u8>, s: BodyScan)
    ensures
        body_run(data, s) matches Ok((f, n)) ==> s.pos < n <= data.len(),
    decreases data.len() - s.pos,
{
    if 0 <= s.pos < data.len() {
        if let BodyStep::Next(s2) = body_step(data, s) {
            lemma_body_run_progress(data, s2);
        }
    }
}

/// A container takes at least one byte, and no more than there are.
pub proof fn lemma_container_progress(data: Seq<u8>)
    ensures
        container_decode(data) matches Ok((c, n)) ==> 0 < n <= data.len(),
{
    if data.len() > 0 && data[0] == LT {
        lemma_header_scan_progress(data, 1, 1, seq![]);
        if let Ok((h, hn)) = header_decode(data) {
            let rest = data.subrange(hn, data.len() as int);
            if rest.len() > 0 && rest[0] == OPEN_SQUARE {
                lemma_body_run_progress(rest, body_start());
            }
        }
    }
}

#[via_fn]
proof fn containers_from_decreases(data: Seq<u8>, pos: int) {
    if 0 <= pos < data.len() {
        lemma_container_progress(data.subrange(pos, data.len() as int));
    }
}

/// The containers of `data` from `pos` on, each right after the one before.
pub open spec fn containers_from(data: Seq<u8>, pos: int) -> Result<Seq<ReadContainer>, Fault>
    decreases data.len() - pos,
    via containers_from_decreases
{
    if pos < 0 || pos >= data.len() {
        Ok(seq![])
    } else {
        match container_decode(data.subrange(pos, data.len() as int)) {
            Err(f) => Err(f),
            Ok((c, n)) => match containers_from(data, pos + n) {
                Ok(rest) => Ok(seq![c] + rest),
                Err(f) => Err(f),
            },
        }
    }
}

/// The containers of a whole buffer.
pub open spec fn containers_decode(data: Seq<u8>) -> Result<Seq<ReadContainer>, Fault> {
    containers_from(data, 0)
}

// ------------------------------------------------------ raw layout of a body

/// The byte strings `parts`, with a comma between each two.
pub open spec fn join(parts: Seq<Seq<u8>>) -> Seq<u8>
    decreases parts.len(),
{
    if parts.len() == 0 {
        seq![]
    } else if parts.len() == 1 {
        parts[0]
    } else {
        join(parts.drop_last()) + seq![COMMA] + parts.last()
    }
}

/// The bytes of a body read as `fields`: their raw bytes, with a comma
/// between each two, between brackets.
pub open spec fn body_text(fields: Seq<FieldModel>) -> Seq<u8> {
    seq![OPEN_SQUARE] + join(fields.map_values(|f: FieldModel| f.data)) + seq![CLOSE_SQUARE]
}

pub open spec fn container_text(c: ContainerModel) -> Seq<u8> {
    header_text(c.header) + body_text(c.fields)
}

/// The bytes that a sequence of containers was read from, with nothing
/// between them.
pub open spec fn containers_text(cs: Seq<ContainerModel>) -> Seq<u8>
    decreases cs.len(),
{
    if cs.len() == 0 {
        seq![]
    } else {
        containers_text(cs.drop_last()) + container_text(cs.last())
    }
}

// --------------------------------------------------------------- strings

/// The index of the first `:` in `data` from `i` on, or its length if none.
pub open spec fn first_colon(data: Seq<u8>, i: int) -> int
    decreases data.len() - i,
{
    if i < 0 || i >= data.len() {
        data.len() as int
    } else if data[i] == COLON {
        i
    } else {
        first_colon(data, i + 1)
    }
}

pub enum StringFault {
    /// No `(` first, or no `:` after it.
    NotString,
    /// The length text `t` is no `i32`.
    BadLength(Seq<u8>),
    /// The payload of length `n`, and its `)`, do not fit.
    TooLong(int),
    /// The byte after the payload of length `n` is not `)`.
    TooShort(int),
    /// The payload is not valid UTF-8.
    BadUtf8,
}

pub open spec fn string_fault_text(f: StringFault) -> Seq<char> {
    match f {
        StringFault::NotString => "Invalid string value"@,
        StringFault::BadLength(t) => bad_number_text(t),
        StringFault::TooLong(n) => "Invalid string length, "@ + decode_utf8(int_text(n))
            + " is too long"@,
        StringFault::TooShort(n) => "Invalid string length, "@ + decode_utf8(int_text(n))
            + " is too short"@,
        StringFault::BadUtf8 => Seq::empty(),
    }
}

/// The payload of a length-prefixed string `(n:payload)` at the start of
/// `data`; empty data is the empty string.
pub open spec fn string_decode(data: Seq<u8>) -> Result<Seq<u8>, StringFault> {
    if data.len() == 0 {
        Ok(seq![])
    } else if data[0] != OPEN_ROUND {
        Err(StringFault::NotString)
    } else {
        let k = first_colon(data, 1);
        if k >= data.len() {
            Err(StringFault::NotString)
        } else {
            let t = data.subrange(1, k);
            match number_of(t) {
                Err(_) => Err(StringFault::BadLength(t)),
                Ok(n) => if n < 0 || k + 1 + n >= data.len() {
                    Err(StringFault::TooLong(n))
                } else if data[k + 1 + n] != CLOSE_ROUND {
                    Err(StringFault::TooShort(n))
                } else if !valid_utf8(data.subrange(k + 1, k + 1 + n)) {
                    Err(StringFault::BadUtf8)
                } else {
                    Ok(data.subrange(k + 1, k + 1 + n))
                },
            }
        }
    }
}

/// The length-prefixed form of the UTF-8 bytes `b`.
pub open spec fn string_text(b: Seq<u8>) -> Seq<u8> {
    seq![OPEN_ROUND] + int_text(b.len() as int) + seq![COLON] + b + seq![CLOSE_ROUND]
}

} // verus!

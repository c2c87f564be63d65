//! What holds of the format as a whole: the shape of every body that
//! decodes, and that writing a decoded buffer back gives the buffer.
use crate::cmdc::decode::{fresh_container, fresh_containers};
use crate::cmdc::encode::{
    container_bytes, containers_bytes, containers_encoding, field_text, fields_bytes, EncodeFault,
};
use crate::mdd::{ContainerModel, Containers, Field, FieldModel};
use crate::wire::{
    body_decode, body_run, body_start, body_step, body_text, container_decode, container_text,
    containers_decode, containers_from, containers_text, header_scan, header_text, join,
    lemma_container_progress,
    pending, span_field, BodyScan, BodyStep, FieldSpan, ReadContainer, CLOSE_SQUARE, COMMA,
    OPEN_SQUARE,
};
use vstd::prelude::*;

verus! {

/// The bytes of the spans `fs` of `data`.
pub open spec fn parts(data: Seq<u8>, fs: Seq<FieldSpan>) -> Seq<Seq<u8>> {
    fs.map_values(|sp: FieldSpan| data.subrange(sp.start, sp.end))
}

/// Each of `ps` followed by a comma.
pub open spec fn prefix_text(ps: Seq<Seq<u8>>) -> Seq<u8>
    decreases ps.len(),
{
    if ps.len() == 0 {
        seq![]
    } else {
        prefix_text(ps.drop_last()) + ps.last() + seq![COMMA]
    }
}

proof fn lemma_join_push(ps: Seq<Seq<u8>>, x: Seq<u8>)
    ensures
        join(ps.push(x)) == prefix_text(ps) + x,
    decreases ps.len(),
{
    if ps.len() == 0 {
        assert(ps.push(x) =~= seq![x]);
        assert(prefix_text(ps) + x =~= x);
    } else {
        assert(ps.push(x).drop_last() =~= ps);
        assert(ps.drop_last().push(ps.last()) =~= ps);
        lemma_join_push(ps.drop_last(), ps.last());
        assert(join(ps.push(x)) =~= prefix_text(ps) + x);
    }
}

/// The fields `fs` tile a body of `n` bytes of `data`: the first starts
/// after `[`, each but the last ends at a comma that the next starts after,
/// and the last ends at the body's `]`.
pub open spec fn body_shape(data: Seq<u8>, fs: Seq<FieldSpan>, n: int) -> bool {
    &&& 2 <= n <= data.len()
    &&& data[0] == OPEN_SQUARE
    &&& data[n - 1] == CLOSE_SQUARE
    &&& fs.len() >= 1
    &&& fs[0].start == 1
    &&& fs.last().end == n - 1
    &&& forall|k: int| 0 <= k < fs.len() ==> #[trigger] fs[k].start <= fs[k].end
    &&& forall|k: int|
        0 <= k < fs.len() - 1 ==> data[#[trigger] fs[k].end] == COMMA && fs[k + 1].start == fs[k].end
            + 1
}

/// What holds of every state that the body scan reaches: the fields found
/// so far tile the bytes before `mark`, each closed by its comma.
pub open spec fn body_inv(data: Seq<u8>, s: BodyScan) -> bool {
    &&& data.len() > 0 && data[0] == OPEN_SQUARE
    &&& 1 <= s.mark <= s.pos <= data.len()
    &&& s.square >= 1
    &&& s.fields.len() == 0 ==> s.mark == 1
    &&& s.fields.len() > 0 ==> s.fields[0].start == 1 && s.fields.last().end + 1 == s.mark
    &&& forall|k: int|
        0 <= k < s.fields.len() ==> 1 <= #[trigger] s.fields[k].start <= s.fields[k].end < s.mark
            && data[s.fields[k].end] == COMMA
    &&& forall|k: int|
        0 <= k < s.fields.len() - 1 ==> #[trigger] s.fields[k + 1].start == s.fields[k].end + 1
    &&& data.subrange(0, s.mark) == seq![OPEN_SQUARE] + prefix_text(parts(data, s.fields))
}

proof fn lemma_parts_push(data: Seq<u8>, fs: Seq<FieldSpan>, sp: FieldSpan)
    ensures
        parts(data, fs.push(sp)) == parts(data, fs).push(data.subrange(sp.start, sp.end)),
{
    assert(parts(data, fs.push(sp)) =~= parts(data, fs).push(data.subrange(sp.start, sp.end)));
}

/// A field closed at `end` extends the tiling.
proof fn lemma_close_field(data: Seq<u8>, s: BodyScan, end: int)
    requires
        body_inv(data, s),
        s.mark <= end < data.len(),
    ensures
        data.subrange(0, end) == seq![OPEN_SQUARE] + prefix_text(parts(data, s.fields))
            + data.subrange(s.mark, end),
        parts(data, s.fields.push(pending(s, end))) == parts(data, s.fields).push(
            data.subrange(s.mark, end),
        ),
{
    assert(data.subrange(0, end) =~= data.subrange(0, s.mark) + data.subrange(s.mark, end));
    lemma_parts_push(data, s.fields, pending(s, end));
}

/// A top-level comma closes the pending field.
proof fn lemma_step_comma(data: Seq<u8>, s: BodyScan)
    requires
        body_inv(data, s),
        s.pos < data.len(),
        !s.in_string,
        data[s.pos] == COMMA,
    ensures
        body_inv(
            data,
            BodyScan {
                pos: s.pos + 1,
                fields: s.fields.push(pending(s, s.pos)),
                mark: s.pos + 1,
                is_multi: false,
                is_container: false,
                ..s
            },
        ),
{
    let sp = pending(s, s.pos);
    let fs2 = s.fields.push(sp);
    let s2 = BodyScan {
        pos: s.pos + 1,
        fields: fs2,
        mark: s.pos + 1,
        is_multi: false,
        is_container: false,
        ..s
    };
    lemma_close_field(data, s, s.pos);
    let ps = parts(data, s.fields);
    assert(data.subrange(0, s.pos + 1) =~= data.subrange(0, s.pos) + seq![COMMA]);
    assert(parts(data, fs2).drop_last() =~= ps);
    assert(data.subrange(0, s.pos + 1) =~= seq![OPEN_SQUARE] + prefix_text(parts(data, fs2)));
    assert forall|k: int| 0 <= k < fs2.len() implies 1 <= #[trigger] fs2[k].start <= fs2[k].end
        < s2.mark && data[fs2[k].end] == COMMA by {
        if k < s.fields.len() {
            assert(fs2[k] == s.fields[k]);
            assert(1 <= s.fields[k].start);
        }
    }
    assert forall|k: int| 0 <= k < fs2.len() - 1 implies #[trigger] fs2[k + 1].start == fs2[k].end
        + 1 by {
        if k + 1 < s.fields.len() {
            assert(fs2[k] == s.fields[k]);
            assert(fs2[k + 1] == s.fields[k + 1]);
        } else {
            assert(fs2[k + 1] == sp);
            assert(fs2[k] == s.fields.last());
        }
    }
    if s.fields.len() > 0 {
        assert(fs2[0] == s.fields[0]);
    }
}

/// The `]` that closes the body closes its last field.
proof fn lemma_step_close(data: Seq<u8>, s: BodyScan)
    requires
        body_inv(data, s),
        s.pos < data.len(),
        data[s.pos] == CLOSE_SQUARE,
    ensures
        body_shape(data, s.fields.push(pending(s, s.pos)), s.pos + 1),
        data.subrange(0, s.pos + 1) == seq![OPEN_SQUARE] + join(
            parts(data, s.fields.push(pending(s, s.pos))),
        ) + seq![CLOSE_SQUARE],
{
    let sp = pending(s, s.pos);
    let fs = s.fields.push(sp);
    lemma_close_field(data, s, s.pos);
    lemma_join_push(parts(data, s.fields), data.subrange(s.mark, s.pos));
    assert(data.subrange(0, s.pos + 1) =~= data.subrange(0, s.pos) + seq![CLOSE_SQUARE]);
    assert forall|k: int| 0 <= k < fs.len() implies #[trigger] fs[k].start <= fs[k].end by {
        if k < s.fields.len() {
            assert(fs[k] == s.fields[k]);
            assert(1 <= s.fields[k].start);
        }
    }
    assert forall|k: int| 0 <= k < fs.len() - 1 implies data[#[trigger] fs[k].end] == COMMA
        && fs[k + 1].start == fs[k].end + 1 by {
        assert(fs[k] == s.fields[k]);
        assert(1 <= s.fields[k].start);
        if k + 1 < s.fields.len() {
            assert(fs[k + 1] == s.fields[k + 1]);
        } else {
            assert(fs[k + 1] == sp);
            assert(s.fields[k] == s.fields.last());
        }
    }
    if s.fields.len() > 0 {
        assert(fs[0] == s.fields[0]);
    }
}

proof fn lemma_body_step(data: Seq<u8>, s: BodyScan)
    requires
        body_inv(data, s),
        s.pos < data.len(),
    ensures
        body_step(data, s) matches BodyStep::Next(s2) ==> body_inv(data, s2) && s2.pos > s.pos,
        body_step(data, s) matches BodyStep::Done(fs, n) ==> body_shape(data, fs, n) && data.subrange(
            0,
            n,
        ) == seq![OPEN_SQUARE] + join(parts(data, fs)) + seq![CLOSE_SQUARE],
{
    let c = data[s.pos];
    if !s.in_string {
        if c == COMMA && s.square == 1 && s.angle == 0 && s.curly == 0 {
            lemma_step_comma(data, s);
        } else if c == CLOSE_SQUARE && s.square == 1 {
            lemma_step_close(data, s);
        }
    }
}

/// Every body that the scan accepts is tiled by its fields, and its bytes
/// are its fields' bytes joined by commas between brackets.
pub proof fn lemma_body_run_shape(data: Seq<u8>, s: BodyScan)
    requires
        body_inv(data, s),
    ensures
        body_run(data, s) matches Ok((fs, n)) ==> body_shape(data, fs, n) && data.subrange(0, n)
            == seq![OPEN_SQUARE] + join(parts(data, fs)) + seq![CLOSE_SQUARE],
    decreases data.len() - s.pos,
{
    if s.pos < data.len() {
        lemma_body_step(data, s);
        if let BodyStep::Next(s2) = body_step(data, s) {
            lemma_body_run_shape(data, s2);
        }
    }
}

/// The fields of a body that decodes tile it, and its bytes are those
/// fields joined by commas between brackets: so it holds one field more
/// than it holds top-level commas.
pub proof fn lemma_body_fields(data: Seq<u8>)
    requires
        body_decode(data) is Ok,
    ensures
        ({
            let (spans, n) = body_decode(data)->Ok_0;
            &&& body_shape(data, spans, n)
            &&& data.subrange(0, n) == body_text(spans.map_values(|sp: FieldSpan| span_field(data, sp)))
        }),
{
    let (spans, n) = body_decode(data)->Ok_0;
    let st = body_start();
    assert(data.subrange(0, 1) =~= seq![OPEN_SQUARE] + prefix_text(parts(data, st.fields)));
    lemma_body_run_shape(data, st);
    let models = spans.map_values(|sp: FieldSpan| span_field(data, sp));
    assert(models.map_values(|f: FieldModel| f.data) =~= parts(data, spans));
}

/// The bytes that the containers `rs` were read from.
pub open spec fn source_text(rs: Seq<ReadContainer>) -> Seq<u8>
    decreases rs.len(),
{
    if rs.len() == 0 {
        seq![]
    } else {
        source_text(rs.drop_last()) + rs.last().header_bytes + body_text(rs.last().container.fields)
    }
}

proof fn lemma_source_text_front(x: ReadContainer, rest: Seq<ReadContainer>)
    ensures
        source_text(seq![x] + rest) == x.header_bytes + body_text(x.container.fields) + source_text(
            rest,
        ),
    decreases rest.len(),
{
    if rest.len() == 0 {
        assert(seq![x] + rest =~= seq![x]);
        assert(seq![x].drop_last() =~= Seq::<ReadContainer>::empty());
        assert(seq![x].last() == x);
        assert(source_text(seq![x].drop_last()) =~= Seq::<u8>::empty());
        assert(source_text(seq![x]) =~= x.header_bytes + body_text(x.container.fields));
    } else {
        lemma_source_text_front(x, rest.drop_last());
        assert((seq![x] + rest).drop_last() =~= seq![x] + rest.drop_last());
        assert(source_text(seq![x] + rest) =~= x.header_bytes + body_text(x.container.fields)
            + source_text(rest));
    }
}

proof fn lemma_container_text(data: Seq<u8>)
    requires
        container_decode(data) is Ok,
    ensures
        ({
            let (rc, n) = container_decode(data)->Ok_0;
            data.subrange(0, n) == rc.header_bytes + body_text(rc.container.fields)
        }),
{
    let (rc, n) = container_decode(data)->Ok_0;
    let (h, hn) = crate::wire::header_decode(data)->Ok_0;
    crate::wire::lemma_header_scan_progress(data, 1, 1, seq![]);
    let rest = data.subrange(hn, data.len() as int);
    lemma_body_fields(rest);
    let bn = body_decode(rest)->Ok_0.1;
    assert(data.subrange(0, n) =~= data.subrange(0, hn) + rest.subrange(0, bn));
}

/// The containers read from `data` from `pos` on cover those bytes exactly.
proof fn lemma_containers_from_text(data: Seq<u8>, pos: int)
    requires
        0 <= pos <= data.len(),
        containers_from(data, pos) is Ok,
    ensures
        data.subrange(pos, data.len() as int) == source_text(containers_from(data, pos)->Ok_0),
    decreases data.len() - pos,
{
    if pos >= data.len() {
        assert(data.subrange(pos, data.len() as int) =~= Seq::<u8>::empty());
    } else {
        let sub = data.subrange(pos, data.len() as int);
        lemma_container_progress(sub);
        let (rc, n) = container_decode(sub)->Ok_0;
        lemma_containers_from_text(data, pos + n);
        lemma_container_text(sub);
        let rest = containers_from(data, pos + n)->Ok_0;
        lemma_source_text_front(rc, rest);
        assert(sub =~= sub.subrange(0, n) + data.subrange(pos + n, data.len() as int));
    }
}

proof fn lemma_containers_text_front(x: ContainerModel, rest: Seq<ContainerModel>)
    ensures
        containers_text(seq![x] + rest) == container_text(x) + containers_text(rest),
    decreases rest.len(),
{
    if rest.len() == 0 {
        assert(seq![x] + rest =~= seq![x]);
        assert(seq![x].drop_last() =~= Seq::<ContainerModel>::empty());
        assert(seq![x].last() == x);
        assert(containers_text(seq![x].drop_last()) =~= Seq::<u8>::empty());
        assert(containers_text(seq![x]) =~= container_text(x));
    } else {
        lemma_containers_text_front(x, rest.drop_last());
        assert((seq![x] + rest).drop_last() =~= seq![x] + rest.drop_last());
        assert(containers_text(seq![x] + rest) =~= container_text(x) + containers_text(rest));
    }
}

proof fn lemma_canonical_source(rs: Seq<ReadContainer>)
    requires
        forall|i: int| 0 <= i < rs.len() ==> (#[trigger] rs[i]).header_bytes == header_text(rs[i].container.header),
    ensures
        source_text(rs) == containers_text(rs.map_values(|r: ReadContainer| r.container)),
    decreases rs.len(),
{
    if rs.len() > 0 {
        lemma_canonical_source(rs.drop_last());
        assert(rs.map_values(|r: ReadContainer| r.container).drop_last() =~= rs.drop_last().map_values(
            |r: ReadContainer| r.container,
        ));
        assert(rs[rs.len() - 1] == rs.last());
    }
}

/// Decoding a buffer and writing the containers back (`encode`, whose bytes
/// `containers_encoding` states) gives the buffer, byte for byte, where every
/// header was written in canonical form (decimal with no leading zero or `+`,
/// each number in its field's range): the fields' bytes are written back as
/// they were read.
pub proof fn lemma_round_trip(b: Seq<u8>, cs: Containers)
    requires
        containers_decode(b) is Ok,
        fresh_containers(cs, containers_decode(b)->Ok_0),
        forall|i: int|
            0 <= i < containers_decode(b)->Ok_0.len() ==> (#[trigger] containers_decode(b)->Ok_0[i]).header_bytes
                == header_text(containers_decode(b)->Ok_0[i].container.header),
    ensures
        containers_text(cs.model()) == b,
        containers_encoding(cs) == Ok::<Seq<u8>, EncodeFault>(b),
{
    let rs = containers_decode(b)->Ok_0;
    lemma_containers_from_text(b, 0);
    assert(b.subrange(0, b.len() as int) =~= b);
    lemma_canonical_source(rs);
    let ms = rs.map_values(|r: ReadContainer| r.container);
    assert forall|i: int| 0 <= i < ms.len() implies #[trigger] cs.model()[i] == ms[i] by {
        let c = cs.containers@[i];
        assert(c.model().fields =~= ms[i].fields);
    }
    assert(cs.model() =~= ms);
    assert forall|i: int, k: int|
        0 <= i < cs.containers@.len() && 0 <= k < cs.containers@[i].fields@.len() implies (
        #[trigger] cs.containers@[i].fields@[k]).is_null == (cs.containers@[i].fields@[k].data@.len()
            == 0) by {
        assert(fresh_container(cs.containers@[i], rs[i].container));
    }
    lemma_raw_encoding(cs);
}

/// The commas that separate the fields `fs` of a body: where each field but
/// the last ends.
pub open spec fn top_level_commas(fs: Seq<FieldSpan>) -> Seq<int> {
    fs.take(fs.len() - 1).map_values(|sp: FieldSpan| sp.end)
}

/// A body that decodes yields one field more than it has top-level commas:
/// each separating comma is a comma byte of the body, they stand in
/// increasing order between the brackets, and every other byte of the body
/// lies inside a field.
pub proof fn lemma_delimiter_balance(data: Seq<u8>)
    requires
        body_decode(data) is Ok,
    ensures
        ({
            let (spans, n) = body_decode(data)->Ok_0;
            let commas = top_level_commas(spans);
            &&& spans.len() == commas.len() + 1
            &&& forall|i: int| 0 <= i < commas.len() ==> data[#[trigger] commas[i]] == COMMA
            &&& forall|i: int, j: int|
                0 <= i < j < commas.len() ==> 0 < #[trigger] commas[i] < #[trigger] commas[j] < n - 1
            &&& forall|p: int|
                1 <= p < n - 1 && !commas.contains(p) ==> exists|k: int|
                    0 <= k < spans.len() && #[trigger] spans[k].start <= p < spans[k].end
        }),
{
    let (spans, n) = body_decode(data)->Ok_0;
    lemma_body_fields(data);
    let commas = top_level_commas(spans);
    assert forall|i: int| 0 <= i < commas.len() implies data[#[trigger] commas[i]] == COMMA by {
        assert(commas[i] == spans[i].end);
    }
    // the fields grow left to right
    assert forall|i: int, j: int| 0 <= i < j < spans.len() implies #[trigger] spans[i].end
        < #[trigger] spans[j].start by {
        lemma_spans_ordered(data, spans, n, i, j);
    }
    assert forall|i: int, j: int| 0 <= i < j < commas.len() implies 0 < #[trigger] commas[i]
        < #[trigger] commas[j] < n - 1 by {
        assert(commas[i] == spans[i].end);
        assert(commas[j] == spans[j].end);
        assert(spans[i].end < spans[j].start);
        assert(spans[j].start <= spans[j].end);
        assert(spans[0].start == 1);
        if i > 0 {
            assert(spans[0].end < spans[i].start);
        }
        assert(spans[i].start <= spans[i].end);
        assert(spans[j].end < spans[spans.len() - 1].start);
        assert(spans[spans.len() - 1].start <= spans[spans.len() - 1].end);
    }
    assert forall|p: int| 1 <= p < n - 1 && !commas.contains(p) implies exists|k: int|
        0 <= k < spans.len() && #[trigger] spans[k].start <= p < spans[k].end by {
        lemma_covered(data, spans, n, p, 0);
    }
}

proof fn lemma_spans_ordered(data: Seq<u8>, fs: Seq<FieldSpan>, n: int, i: int, j: int)
    requires
        body_shape(data, fs, n),
        0 <= i < j < fs.len(),
    ensures
        fs[i].end < fs[j].start,
    decreases j - i,
{
    assert(fs[i + 1].start == fs[i].end + 1);
    if j > i + 1 {
        lemma_spans_ordered(data, fs, n, i + 1, j);
        assert(fs[i + 1].start <= fs[i + 1].end);
    }
}

proof fn lemma_covered(data: Seq<u8>, fs: Seq<FieldSpan>, n: int, p: int, k: int)
    requires
        body_shape(data, fs, n),
        0 <= k < fs.len(),
        fs[k].start <= p < n - 1,
        !top_level_commas(fs).contains(p),
    ensures
        exists|k2: int| 0 <= k2 < fs.len() && #[trigger] fs[k2].start <= p < fs[k2].end,
    decreases fs.len() - k,
{
    if p < fs[k].end {
        assert(fs[k].start <= p < fs[k].end);
    } else if k == fs.len() - 1 {
    } else {
        if p == fs[k].end {
            assert(top_level_commas(fs)[k] == p);
        }
        lemma_covered(data, fs, n, p, k + 1);
    }
}

/// True when each field of `cs` is null exactly when it has no raw byte, as
/// every decoded field is.
pub open spec fn raw_fields(cs: Containers) -> bool {
    forall|i: int, k: int|
        0 <= i < cs.containers@.len() && 0 <= k < cs.containers@[i].fields@.len() ==> (
        #[trigger] cs.containers@[i].fields@[k]).is_null == (cs.containers@[i].fields@[k].data@.len()
            == 0)
}

proof fn lemma_fields_bytes_raw(fs: Seq<Field>, n: int)
    requires
        0 <= n <= fs.len(),
        forall|k: int| 0 <= k < fs.len() ==> (#[trigger] fs[k]).is_null == (fs[k].data@.len() == 0),
    ensures
        fields_bytes(fs, n) == Ok::<Seq<u8>, EncodeFault>(
            join(fs.take(n).map_values(|f: Field| f.data@)),
        ),
    decreases n,
{
    let ps = fs.take(n).map_values(|f: Field| f.data@);
    if n == 0 {
        assert(ps =~= Seq::<Seq<u8>>::empty());
    } else {
        lemma_fields_bytes_raw(fs, n - 1);
        assert(ps.drop_last() =~= fs.take(n - 1).map_values(|f: Field| f.data@));
        let f = fs[n - 1];
        if f.is_null {
            assert(f.data@ =~= Seq::<u8>::empty());
        }
        assert(field_text(f) == Ok::<Seq<u8>, EncodeFault>(f.data@));
        if n == 1 {
            assert(join(ps) == ps[0]);
        }
    }
}

proof fn lemma_containers_bytes_raw(cs: Containers, n: int)
    requires
        0 <= n <= cs.containers@.len(),
        raw_fields(cs),
    ensures
        containers_bytes(cs.containers@, n) == Ok::<Seq<u8>, EncodeFault>(
            containers_text(cs.model().take(n)),
        ),
    decreases n,
{
    let ms = cs.model().take(n);
    if n == 0 {
        assert(ms =~= Seq::<ContainerModel>::empty());
    } else {
        lemma_containers_bytes_raw(cs, n - 1);
        assert(ms.drop_last() =~= cs.model().take(n - 1));
        let c = cs.containers@[n - 1];
        assert forall|k: int| 0 <= k < c.fields@.len() implies (#[trigger] c.fields@[k]).is_null == (
        c.fields@[k].data@.len() == 0) by {
            assert(cs.containers@[n - 1].fields@[k] == c.fields@[k]);
        }
        lemma_fields_bytes_raw(c.fields@, c.fields@.len() as int);
        assert(c.fields@.take(c.fields@.len() as int) =~= c.fields@);
        assert(c.fields@.map_values(|f: Field| f.data@) =~= c.model().fields.map_values(
            |f: FieldModel| f.data,
        ));
        assert(ms.last() == c.model());
        assert(container_bytes(c)->Ok_0 =~= container_text(c.model()));
    }
}

/// Where every field is null exactly when it has no raw byte, the containers
/// are written as their fields' raw bytes.
pub proof fn lemma_raw_encoding(cs: Containers)
    requires
        raw_fields(cs),
    ensures
        containers_encoding(cs) == Ok::<Seq<u8>, EncodeFault>(containers_text(cs.model())),
{
    lemma_containers_bytes_raw(cs, cs.containers@.len() as int);
    assert(cs.model().take(cs.containers@.len() as int) =~= cs.model());
}

proof fn lemma_header_scan_extend(d: Seq<u8>, e: Seq<u8>, i: int, mark: int, texts: Seq<Seq<u8>>)
    requires
        0 <= mark <= i,
        header_scan(d, i, mark, texts) is Ok,
    ensures
        header_scan(d + e, i, mark, texts) == header_scan(d, i, mark, texts),
    decreases d.len() - i,
{
    let d2 = d + e;
    assert(d2[i] == d[i]);
    assert(d2.subrange(mark, i) =~= d.subrange(mark, i));
    let c = d[i];
    if c == COMMA && crate::wire::number_of(d.subrange(mark, i)) is Ok && texts.len() < 5 {
        lemma_header_scan_extend(d, e, i + 1, i + 1, texts.push(d.subrange(mark, i)));
    } else if (48 <= c <= 57) || c == crate::wire::MINUS {
        lemma_header_scan_extend(d, e, i + 1, mark, texts);
    }
}

proof fn lemma_body_run_extend(d: Seq<u8>, e: Seq<u8>, s: BodyScan)
    requires
        0 <= s.len_mark <= s.pos,
        s.in_string && s.len_mark != 0 ==> s.len_mark < s.pos,
        body_run(d, s) is Ok,
    ensures
        body_run(d + e, s) == body_run(d, s),
    decreases d.len() - s.pos,
{
    let d2 = d + e;
    assert(d2[s.pos] == d[s.pos]);
    if s.in_string && s.len_mark != 0 {
        assert(d2.subrange(s.len_mark + 1, s.pos) =~= d.subrange(s.len_mark + 1, s.pos));
    }
    if let BodyStep::Next(s2) = body_step(d, s) {
        assert(body_run(d, s2) is Ok);
        assert(body_step(d2, s) == body_step(d, s));
        lemma_body_run_extend(d, e, s2);
    }
}

/// The spans of a body that decodes lie inside it.
proof fn lemma_spans_inside(data: Seq<u8>, fs: Seq<FieldSpan>, n: int)
    requires
        body_shape(data, fs, n),
    ensures
        forall|k: int| 0 <= k < fs.len() ==> 1 <= #[trigger] fs[k].start <= fs[k].end <= n - 1,
{
    assert forall|k: int| 0 <= k < fs.len() implies 1 <= #[trigger] fs[k].start <= fs[k].end <= n
        - 1 by {
        let last = fs.len() - 1;
        if k < last {
            lemma_spans_ordered(data, fs, n, k, last);
        }
        if k > 0 {
            lemma_spans_ordered(data, fs, n, 0, k);
        }
    }
}

/// Bytes after a container do not change how it decodes.
proof fn lemma_container_extend(d: Seq<u8>, e: Seq<u8>)
    requires
        container_decode(d) is Ok,
    ensures
        container_decode(d + e) == container_decode(d),
{
    let d2 = d + e;
    assert(d2[0] == d[0]);
    crate::wire::lemma_header_scan_progress(d, 1, 1, seq![]);
    lemma_header_scan_extend(d, e, 1, 1, seq![]);
    let hn = crate::wire::header_decode(d)->Ok_0.1;
    let rest = d.subrange(hn, d.len() as int);
    let rest2 = d2.subrange(hn, d2.len() as int);
    assert(rest2 =~= rest + e);
    assert(rest2[0] == rest[0]);
    lemma_body_run_extend(rest, e, body_start());
    lemma_body_fields(rest);
    let (spans, bn) = body_decode(rest)->Ok_0;
    lemma_spans_inside(rest, spans, bn);
    assert(spans.map_values(|sp: FieldSpan| span_field(rest2, sp)) =~= spans.map_values(
        |sp: FieldSpan| span_field(rest, sp),
    )) by {
        assert forall|k: int| 0 <= k < spans.len() implies span_field(rest2, #[trigger] spans[k])
            == span_field(rest, spans[k]) by {
            assert(rest2.subrange(spans[k].start, spans[k].end) =~= rest.subrange(
                spans[k].start,
                spans[k].end,
            ));
        }
    }
    assert(d2.subrange(0, hn) =~= d.subrange(0, hn));
}

proof fn lemma_containers_from_shift(a: Seq<u8>, b: Seq<u8>, p: int)
    requires
        0 <= p <= b.len(),
    ensures
        containers_from(a + b, a.len() + p) == containers_from(b, p),
    decreases b.len() - p,
{
    if p < b.len() {
        let ab = a + b;
        assert(ab.subrange(a.len() + p, ab.len() as int) =~= b.subrange(p, b.len() as int));
        let sub = b.subrange(p, b.len() as int);
        lemma_container_progress(sub);
        if let Ok((c, n)) = container_decode(sub) {
            lemma_containers_from_shift(a, b, p + n);
        }
    }
}

proof fn lemma_containers_from_concat(b1: Seq<u8>, b2: Seq<u8>, pos: int)
    requires
        0 <= pos <= b1.len(),
        containers_from(b1, pos) is Ok,
        containers_decode(b2) is Ok,
    ensures
        containers_from(b1 + b2, pos) == Ok::<Seq<ReadContainer>, crate::wire::Fault>(
            containers_from(b1, pos)->Ok_0 + containers_decode(b2)->Ok_0,
        ),
    decreases b1.len() - pos,
{
    let rs2 = containers_decode(b2)->Ok_0;
    if pos == b1.len() {
        lemma_containers_from_shift(b1, b2, 0);
        assert(Seq::<ReadContainer>::empty() + rs2 =~= rs2);
    } else {
        let sub1 = b1.subrange(pos, b1.len() as int);
        let b12 = b1 + b2;
        assert(b12.subrange(pos, b12.len() as int) =~= sub1 + b2);
        lemma_container_progress(sub1);
        lemma_container_extend(sub1, b2);
        let (rc, n) = container_decode(sub1)->Ok_0;
        lemma_containers_from_concat(b1, b2, pos + n);
        let rest1 = containers_from(b1, pos + n)->Ok_0;
        assert(seq![rc] + (rest1 + rs2) =~= (seq![rc] + rest1) + rs2);
    }
}

/// Two buffers written one after the other decode to the containers of the
/// first followed by those of the second: no byte separates containers,
/// and each decodes the same whatever follows it.
pub proof fn lemma_concatenation(b1: Seq<u8>, b2: Seq<u8>)
    requires
        containers_decode(b1) is Ok,
        containers_decode(b2) is Ok,
    ensures
        containers_decode(b1 + b2) == Ok::<Seq<ReadContainer>, crate::wire::Fault>(
            containers_decode(b1)->Ok_0 + containers_decode(b2)->Ok_0,
        ),
{
    lemma_containers_from_concat(b1, b2, 0);
}

/// True when the scan in state `s` stands on a comma at the top: outside
/// any string, at `[` depth 1, with no `<` or `{` open.
pub open spec fn at_top_comma(data: Seq<u8>, s: BodyScan) -> bool {
    &&& 0 <= s.pos < data.len()
    &&& !s.in_string
    &&& s.square == 1
    &&& s.angle == 0
    &&& s.curly == 0
    &&& data[s.pos] == COMMA
}

/// The positions of the commas at the top that the scan meets from `s` on;
/// the bytes of a string's payload are skipped, so never met.
pub open spec fn top_commas_from(data: Seq<u8>, s: BodyScan) -> Set<int>
    decreases data.len() - s.pos,
{
    if s.pos < 0 || s.pos >= data.len() {
        Set::empty()
    } else {
        let here = if at_top_comma(data, s) {
            set![s.pos]
        } else {
            Set::empty()
        };
        match body_step(data, s) {
            BodyStep::Next(s2) => if s2.pos > s.pos {
                here + top_commas_from(data, s2)
            } else {
                here
            },
            _ => here,
        }
    }
}

/// The ends of the fields `fs` but the last.
pub open spec fn separators(fs: Seq<FieldSpan>) -> Set<int> {
    Set::new(|p: int| exists|k: int| 0 <= k < fs.len() - 1 && (#[trigger] fs[k]).end == p)
}

/// The ends of all the fields `fs`.
pub open spec fn ends(fs: Seq<FieldSpan>) -> Set<int> {
    Set::new(|p: int| exists|k: int| 0 <= k < fs.len() && (#[trigger] fs[k]).end == p)
}

proof fn lemma_top_commas_run(data: Seq<u8>, s: BodyScan)
    requires
        body_run(data, s) is Ok,
        body_inv(data, s),
    ensures
        separators(body_run(data, s)->Ok_0.0) == ends(s.fields) + top_commas_from(data, s),
    decreases data.len() - s.pos,
{
    let fs = body_run(data, s)->Ok_0.0;
    lemma_body_step(data, s);
    let c = data[s.pos];
    match body_step(data, s) {
        BodyStep::Next(s2) => {
            lemma_top_commas_run(data, s2);
            if at_top_comma(data, s) {
                assert(s2.fields == s.fields.push(pending(s, s.pos)));
                assert(ends(s2.fields) =~= ends(s.fields) + set![s.pos]) by {
                    assert forall|p: int| ends(s2.fields).contains(p) implies (ends(s.fields)
                        + set![s.pos]).contains(p) by {
                        let k = choose|k: int| 0 <= k < s2.fields.len() && (#[trigger] s2.fields[k]).end == p;
                        if k < s.fields.len() {
                            assert(s2.fields[k] == s.fields[k]);
                        }
                    }
                    assert forall|p: int| (ends(s.fields) + set![s.pos]).contains(p) implies ends(
                        s2.fields,
                    ).contains(p) by {
                        if ends(s.fields).contains(p) {
                            let k = choose|k: int| 0 <= k < s.fields.len() && (#[trigger] s.fields[k]).end == p;
                            assert(s2.fields[k] == s.fields[k]);
                        } else {
                            assert(s2.fields[s.fields.len() as int].end == p);
                        }
                    }
                }
            } else {
                assert(s2.fields == s.fields);
            }
            assert(separators(fs) =~= ends(s.fields) + top_commas_from(data, s));
        },
        BodyStep::Done(fs3, n) => {
            assert(!at_top_comma(data, s));
            assert(fs3 == s.fields.push(pending(s, s.pos)));
            assert(separators(fs) =~= ends(s.fields) + top_commas_from(data, s)) by {
                assert forall|p: int| separators(fs).contains(p) implies ends(s.fields).contains(p) by {
                    let k = choose|k: int| 0 <= k < fs.len() - 1 && (#[trigger] fs[k]).end == p;
                    assert(fs[k] == s.fields[k]);
                }
                assert forall|p: int| ends(s.fields).contains(p) implies separators(fs).contains(p) by {
                    let k = choose|k: int| 0 <= k < s.fields.len() && (#[trigger] s.fields[k]).end == p;
                    assert(fs[k] == s.fields[k]);
                }
            }
        },
        BodyStep::Fail(_) => {},
    }
}

/// The commas that separate the fields of a body that decodes are exactly
/// the commas that stand outside every string, at `[` depth 1 with no `<` or
/// `{` open: so the body has one field more than it has such commas.
pub proof fn lemma_top_level_commas(data: Seq<u8>)
    requires
        body_decode(data) is Ok,
    ensures
        separators(body_decode(data)->Ok_0.0) == top_commas_from(data, body_start()),
        top_level_commas(body_decode(data)->Ok_0.0).to_set() == top_commas_from(data, body_start()),
        body_decode(data)->Ok_0.0.len() == top_commas_from(data, body_start()).len() + 1,
{
    let st = body_start();
    let fs = body_decode(data)->Ok_0.0;
    assert(data.subrange(0, 1) =~= seq![OPEN_SQUARE] + prefix_text(parts(data, st.fields)));
    lemma_top_commas_run(data, st);
    assert(ends(st.fields) =~= Set::<int>::empty());
    assert(separators(fs) =~= top_commas_from(data, st));
    let tc = top_level_commas(fs);
    lemma_body_fields(data);
    assert(tc.len() == fs.len() - 1);
    assert forall|i: int| 0 <= i < tc.len() implies #[trigger] tc[i] == fs[i].end by {}
    assert(tc.to_set() =~= separators(fs)) by {
        assert forall|p: int| tc.to_set().contains(p) implies separators(fs).contains(p) by {
            let i = choose|i: int| 0 <= i < tc.len() && tc[i] == p;
            assert(tc[i] == fs[i].end);
        }
        assert forall|p: int| separators(fs).contains(p) implies tc.to_set().contains(p) by {
            let k = choose|k: int| 0 <= k < fs.len() - 1 && (#[trigger] fs[k]).end == p;
            assert(tc[k] == p);
        }
    }
    lemma_delimiter_balance(data);
    assert(tc.no_duplicates()) by {
        assert forall|i: int, j: int| 0 <= i < tc.len() && 0 <= j < tc.len() && i != j implies tc[i]
            != tc[j] by {
            if i < j {
                assert(tc[i] < tc[j]);
            } else {
                assert(tc[j] < tc[i]);
            }
        }
    }
    tc.unique_seq_to_set();
}

} // verus!

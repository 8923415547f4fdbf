//! What holds of xWMA files: a RIFF header and whole chunks.

use crate::bytes::{field, le32, DATA, DPDS, FMT, RIFF, XWMA};
use crate::format::{fmt_of, Fmt};
use crate::laws::{after_data, law_data_comes_out_in_packets, law_packets_hold_the_data, packets};
use crate::model::{
    advance, close_chunk, entries, fresh, kind_of, lemma_run_waits, odd, run, saturating,
    start_events, ParserView, Stage, Step,
};
use crate::output::{lemma_payload_add, payload, OutputView};
use crate::timeline::blocks;
use crate::xwmademux::{chained, duration, initial};
use vstd::prelude::*;

verus! {

/// The four bytes of a little-endian `u32`.
pub open spec fn le32_bytes(n: int) -> Seq<u8> {
    seq![
        (n % 0x100) as u8,
        (n / 0x100 % 0x100) as u8,
        (n / 0x1_0000 % 0x100) as u8,
        (n / 0x100_0000 % 0x100) as u8,
    ]
}

/// A RIFF chunk.
#[verifier::ext_equal]
pub struct Chunk {
    pub id: Seq<u8>,
    pub body: Seq<u8>,
    /// The byte that follows a body of odd size. It plays no part.
    pub pad: u8,
}

impl Chunk {
    /// The chunk can be written, and if it gives the format it holds a
    /// WAVEFORMATEX.
    pub open spec fn valid(self) -> bool {
        &&& self.id.len() == 4
        &&& self.body.len() <= u32::MAX
        &&& self.id == FMT@ ==> self.body.len() >= 16
    }

    /// The id and the size.
    pub open spec fn header(self) -> Seq<u8> {
        self.id + le32_bytes(self.body.len() as int)
    }

    pub open spec fn padding(self) -> Seq<u8> {
        if odd(self.body.len() as int) {
            seq![self.pad]
        } else {
            seq![]
        }
    }

    pub open spec fn bytes(self) -> Seq<u8> {
        self.header() + (self.body + self.padding())
    }

    /// The chunk holds an index of one entry or more.
    pub open spec fn is_index(self) -> bool {
        self.id == DPDS@ && self.body.len() >= 4
    }

    /// The chunk is of no interest.
    pub open spec fn is_unknown(self) -> bool {
        self.id != FMT@ && self.id != DPDS@ && self.id != DATA@
    }
}

/// Chunks one after the other.
pub open spec fn joined(chunks: Seq<Chunk>) -> Seq<u8>
    decreases chunks.len(),
{
    if chunks.len() == 0 {
        seq![]
    } else {
        chunks[0].bytes() + joined(chunks.drop_first())
    }
}

/// `RIFF`, the size of what follows, and `XWMA`.
pub open spec fn riff_header(size: int) -> Seq<u8> {
    RIFF@ + le32_bytes(size) + XWMA@
}

/// An xWMA file whose header gives the size `size`.
pub open spec fn xwma_file(size: int, chunks: Seq<Chunk>) -> Seq<u8> {
    riff_header(size) + joined(chunks)
}

/// The chunks are valid, and no `data` chunk comes before the format is known;
/// `known` tells whether it is before all of them.
pub open spec fn readable(known: bool, chunks: Seq<Chunk>) -> bool
    decreases chunks.len(),
{
    chunks.len() == 0 || {
        let c = chunks[0];
        &&& c.valid()
        &&& c.id == DATA@ ==> known
        &&& readable(known || c.id == FMT@, chunks.drop_first())
    }
}

/// The format that the last `fmt ` chunk gives; `known` where there is none.
pub open spec fn last_fmt(known: Option<Fmt>, chunks: Seq<Chunk>) -> Option<Fmt>
    decreases chunks.len(),
{
    if chunks.len() == 0 {
        known
    } else if chunks[0].id == FMT@ {
        last_fmt(Some(fmt_of(chunks[0].body)), chunks.drop_first())
    } else {
        last_fmt(known, chunks.drop_first())
    }
}

/// The body of the last chunk that holds an index; `known` where there is
/// none.
pub open spec fn last_index(known: Option<Seq<u8>>, chunks: Seq<Chunk>) -> Option<Seq<u8>>
    decreases chunks.len(),
{
    if chunks.len() == 0 {
        known
    } else if chunks[0].is_index() {
        last_index(Some(chunks[0].body), chunks.drop_first())
    } else {
        last_index(known, chunks.drop_first())
    }
}

/// The bytes of all `data` chunks.
pub open spec fn all_data(chunks: Seq<Chunk>) -> Seq<u8>
    decreases chunks.len(),
{
    if chunks.len() == 0 {
        seq![]
    } else if chunks[0].id == DATA@ {
        chunks[0].body + all_data(chunks.drop_first())
    } else {
        all_data(chunks.drop_first())
    }
}

/// The parser in front of the body of the `data` chunk `c`.
pub open spec fn in_data(p: ParserView, c: Chunk) -> ParserView {
    let size = c.body.len() as u32;
    ParserView {
        stage: Stage::Data { remaining: size, pad: odd(size as int) },
        started: true,
        data: p.moved(8).located(size, p.fmt.unwrap()),
        ..p.moved(8)
    }
}

/// The parser after a chunk.
pub open spec fn after_chunk(p: ParserView, c: Chunk) -> ParserView {
    let next = p.moved(c.bytes().len() as int);
    if c.id == FMT@ {
        ParserView { fmt: Some(fmt_of(c.body)), ..next }
    } else if c.is_index() {
        ParserView {
            dpds_total: Some(le32(c.body, c.body.len() - 4) as u32),
            index: entries(c.body, c.body.len() as int / 4),
            ..next
        }
    } else if c.id == DATA@ {
        ParserView {
            started: true,
            data: in_data(p, c).data,
            next_packet: (p.next_packet + packets(p, c.body).len()) as u64,
            ..next
        }
    } else {
        next
    }
}

/// What a chunk comes out as: a `data` chunk as its packets, and the first one
/// as stream start, caps and segment before them; another one as nothing.
pub open spec fn chunk_out(p: ParserView, c: Chunk) -> Seq<OutputView> {
    if c.id == DATA@ {
        (if p.started {
            seq![]
        } else {
            start_events(p.fmt.unwrap())
        }) + packets(p, c.body)
    } else {
        seq![]
    }
}

/// The parser after some chunks.
pub open spec fn after_chunks(p: ParserView, chunks: Seq<Chunk>) -> ParserView
    decreases chunks.len(),
{
    if chunks.len() == 0 {
        p
    } else {
        after_chunks(after_chunk(p, chunks[0]), chunks.drop_first())
    }
}

/// What some chunks come out as.
pub open spec fn chunks_out(p: ParserView, chunks: Seq<Chunk>) -> Seq<OutputView>
    decreases chunks.len(),
{
    if chunks.len() == 0 {
        seq![]
    } else {
        chunk_out(p, chunks[0]) + chunks_out(after_chunk(p, chunks[0]), chunks.drop_first())
    }
}

/// The parser after the RIFF header.
pub open spec fn opened() -> ParserView {
    fresh().moved(12).at(Stage::ChunkHeader)
}

/// Four bytes hold a `u32`.
pub(crate) proof fn lemma_le32_bytes(n: int, s: Seq<u8>, i: int)
    requires
        0 <= n <= u32::MAX,
        0 <= i,
        i + 4 <= s.len(),
        field(s, i, 4) == le32_bytes(n),
    ensures
        le32(s, i) == n,
{
    let f = field(s, i, 4);
    assert(f[0] == s[i] && f[1] == s[i + 1] && f[2] == s[i + 2] && f[3] == s[i + 3]);
}

/// A step that hands nothing out.
proof fn lemma_silent_step(p: ParserView, input: Seq<u8>, next: ParserView)
    requires
        input.len() >= p.need(),
        advance(p, input.take(p.need())) == (Step::Go { next, out: seq![] }),
    ensures
        run(p, input) == run(next, input.skip(p.need())),
{
    let r = run(next, input.skip(p.need()));
    assert(Seq::<OutputView>::empty() + r.out =~= r.out);
}

/// The header of an xWMA file is read, whatever size it gives.
pub proof fn law_header_is_read(size: int, rest: Seq<u8>)
    ensures
        run(fresh(), riff_header(size) + rest) == run(opened(), rest),
{
    let input = riff_header(size) + rest;
    let h = input.take(12);
    assert(field(h, 0, 4) =~= RIFF@);
    assert(field(h, 8, 4) =~= XWMA@);
    assert(input.skip(12) =~= rest);
    lemma_silent_step(fresh(), input, opened());
}

/// The fields of a chunk header.
pub(crate) proof fn lemma_header_fields(c: Chunk, rest: Seq<u8>)
    requires
        c.id.len() == 4,
        c.body.len() <= u32::MAX,
    ensures
        ({
            let h = (c.header() + rest).take(8);
            &&& field(h, 0, 4) == c.id
            &&& le32(h, 4) == c.body.len()
            &&& (c.header() + rest).skip(8) == rest
            &&& c.header().len() == 8
        }),
{
    let h = (c.header() + rest).take(8);
    assert(field(h, 0, 4) =~= c.id);
    assert(field(h, 4, 4) =~= le32_bytes(c.body.len() as int));
    lemma_le32_bytes(c.body.len() as int, h, 4);
    assert((c.header() + rest).skip(8) =~= rest);
}

/// The step after the body of a chunk, for the parser `p` before its header.
proof fn lemma_body_is_read(p: ParserView, q: ParserView, c: Chunk)
    requires
        !p.skip,
        p.stage is ChunkHeader,
        c.valid(),
        c.id != DATA@,
        q == p.moved(8).at(
            Stage::ChunkBody {
                kind: kind_of(c.id),
                size: c.body.len() as u32,
                pad: odd(c.body.len() as int),
            },
        ),
    ensures
        advance(q, c.body + c.padding()) == (Step::Go { next: after_chunk(p, c), out: seq![] }),
{
    let body = c.body;
    let len = body.len() as int;
    let b = body + c.padding();
    assert(b.len() + 8 == c.bytes().len());
    let closed = q.moved(b.len() as int).at(Stage::ChunkHeader);
    assert(closed =~= p.moved(c.bytes().len() as int));
    assert(FMT@[0] != DPDS@[0]);
    if c.id == FMT@ {
        assert(fmt_of(b) == fmt_of(body));
    } else if c.is_index() {
        assert(le32(b, len - 4) == le32(body, len - 4));
        assert(entries(b, len / 4) =~= entries(body, len / 4));
    }
    match close_chunk(q, b, kind_of(c.id), len as u32) {
        Step::Go { next, .. } => assert(next =~= after_chunk(p, c)),
        Step::Fail { .. } => {},
    }
}

proof fn lemma_other_chunk_is_read(p: ParserView, c: Chunk, rest: Seq<u8>)
    requires
        !p.skip,
        p.stage is ChunkHeader,
        c.valid(),
        c.id != DATA@,
    ensures
        run(p, c.bytes() + rest) == run(after_chunk(p, c), rest),
{
    let len = c.body.len() as int;
    let left = (c.body + c.padding()) + rest;
    let input = c.bytes() + rest;
    assert(input =~= c.header() + left);
    lemma_header_fields(c, left);
    let q = p.moved(8).at(
        Stage::ChunkBody { kind: kind_of(c.id), size: len as u32, pad: odd(len) },
    );
    lemma_silent_step(p, input, q);
    assert(left.take(q.need()) =~= c.body + c.padding());
    assert(left.skip(q.need()) =~= rest);
    lemma_body_is_read(p, q, c);
    lemma_silent_step(q, left, after_chunk(p, c));
}

/// The header of a `data` chunk starts the stream, if it has not started.
pub(crate) proof fn lemma_data_header(p: ParserView, c: Chunk, rest: Seq<u8>)
    requires
        !p.skip,
        p.stage is ChunkHeader,
        p.fmt is Some,
        c.valid(),
        c.id == DATA@,
    ensures
        run(p, c.header() + rest) == run(in_data(p, c), rest).after(
            if p.started {
                seq![]
            } else {
                start_events(p.fmt.unwrap())
            },
        ),
{
    lemma_header_fields(c, rest);
}

/// There are no more packets than bytes.
pub(crate) proof fn lemma_packet_count(p: ParserView, body: Seq<u8>)
    ensures
        packets(p, body).len() <= body.len(),
{
    let size = p.packet_size();
    let len = body.len() as int;
    let n = blocks(len, size);
    vstd::arithmetic::div_mod::lemma_div_pos_is_pos(len + size - 1, size);
    vstd::arithmetic::div_mod::lemma_fundamental_div_mod(len + size - 1, size);
    vstd::arithmetic::div_mod::lemma_mod_bound(len + size - 1, size);
    assert(n <= len) by (nonlinear_arith)
        requires
            0 <= n,
            0 <= len,
            size >= 1,
            size * n <= len + size - 1,
    ;
}

proof fn lemma_data_chunk_is_read(p: ParserView, c: Chunk, rest: Seq<u8>)
    requires
        !p.skip,
        p.stage is ChunkHeader,
        p.fmt is Some,
        c.valid(),
        c.id == DATA@,
        p.next_packet + c.body.len() <= u64::MAX,
    ensures
        run(p, c.bytes() + rest) == run(after_chunk(p, c), rest).after(chunk_out(p, c)),
{
    let len = c.body.len() as int;
    let tail = c.padding() + rest;
    let left = c.body + tail;
    assert(c.bytes() + rest =~= c.header() + left);
    lemma_data_header(p, c, left);
    let q = in_data(p, c);
    law_data_comes_out_in_packets(q, c.body, odd(len), tail);
    lemma_packet_count(p, c.body);
    assert(packets(q, c.body) =~= packets(p, c.body));
    let e = after_data(q, c.body, odd(len));
    let next = after_chunk(p, c);
    assert(FMT@[0] != DATA@[0] && DPDS@[1] != DATA@[1]);
    if odd(len) {
        assert(tail.skip(1) =~= rest);
        assert(ParserView { skip: false, ..e.moved(1) } =~= next);
        lemma_silent_step(e, tail, next);
    } else {
        assert(tail =~= rest);
        assert(e =~= next);
    }
    let start = if p.started {
        seq![]
    } else {
        start_events(p.fmt.unwrap())
    };
    let r = run(next, rest);
    assert(start + (packets(p, c.body) + r.out) =~= chunk_out(p, c) + r.out);
}

/// A chunk is read whole. One that is not `fmt `, `dpds` or `data` leaves no
/// trace but in the position, and no pad byte leaves any.
pub proof fn law_chunk_is_read(p: ParserView, c: Chunk, rest: Seq<u8>)
    requires
        !p.skip,
        p.stage is ChunkHeader,
        c.valid(),
        c.id == DATA@ ==> p.fmt is Some && p.next_packet + c.body.len() <= u64::MAX,
    ensures
        run(p, c.bytes() + rest) == run(after_chunk(p, c), rest).after(chunk_out(p, c)),
{
    if c.id == DATA@ {
        lemma_data_chunk_is_read(p, c, rest);
    } else {
        lemma_other_chunk_is_read(p, c, rest);
        let r = run(after_chunk(p, c), rest);
        assert(Seq::<OutputView>::empty() + r.out =~= r.out);
    }
}

/// Whole chunks are read one after the other, whatever follows them.
pub proof fn law_chunks_are_read(p: ParserView, chunks: Seq<Chunk>, rest: Seq<u8>)
    requires
        !p.skip,
        p.stage is ChunkHeader,
        readable(p.fmt is Some, chunks),
        p.next_packet + joined(chunks).len() <= u64::MAX,
    ensures
        run(p, joined(chunks) + rest) == run(after_chunks(p, chunks), rest).after(
            chunks_out(p, chunks),
        ),
        !after_chunks(p, chunks).skip,
        after_chunks(p, chunks).stage is ChunkHeader,
        p.next_packet <= after_chunks(p, chunks).next_packet <= p.next_packet + joined(
            chunks,
        ).len(),
    decreases chunks.len(),
{
    if chunks.len() == 0 {
        let r = run(p, rest);
        assert(joined(chunks) + rest =~= rest);
        assert(Seq::<OutputView>::empty() + r.out =~= r.out);
    } else {
        let c = chunks[0];
        let more = chunks.drop_first();
        let q = after_chunk(p, c);
        assert(joined(chunks) + rest =~= c.bytes() + (joined(more) + rest));
        lemma_packet_count(p, c.body);
        assert(FMT@[0] != DATA@[0] && DPDS@[1] != DATA@[1]);
        law_chunk_is_read(p, c, joined(more) + rest);
        law_chunks_are_read(q, more, rest);
        let r = run(after_chunks(p, chunks), rest);
        assert(chunk_out(p, c) + (chunks_out(q, more) + r.out) =~= chunks_out(p, chunks) + r.out);
    }
}

/// What the parser knows of the index, given the body of the last `dpds` chunk
/// that holds one.
pub open spec fn indexed(p: ParserView, body: Option<Seq<u8>>) -> bool {
    match body {
        Some(b) => {
            &&& p.dpds_total == Some(le32(b, b.len() - 4) as u32)
            &&& p.index == entries(b, b.len() as int / 4)
        },
        None => p.dpds_total is None && p.index.len() == 0,
    }
}

/// What the parser knows after some chunks.
pub(crate) proof fn lemma_known(p: ParserView, body: Option<Seq<u8>>, chunks: Seq<Chunk>)
    requires
        indexed(p, body),
    ensures
        after_chunks(p, chunks).fmt == last_fmt(p.fmt, chunks),
        indexed(after_chunks(p, chunks), last_index(body, chunks)),
    decreases chunks.len(),
{
    if chunks.len() > 0 {
        let c = chunks[0];
        assert(FMT@[0] != DATA@[0] && FMT@[0] != DPDS@[0]);
        let b = if c.is_index() {
            Some(c.body)
        } else {
            body
        };
        lemma_known(after_chunk(p, c), b, chunks.drop_first());
    }
}

/// The bytes of a `data` chunk come out.
proof fn lemma_chunk_payload(p: ParserView, c: Chunk)
    requires
        p.next_packet + c.body.len() <= u64::MAX,
    ensures
        payload(chunk_out(p, c)) == (if c.id == DATA@ {
            c.body
        } else {
            seq![]
        }),
{
    if c.id == DATA@ {
        let start = if p.started {
            seq![]
        } else {
            start_events(p.fmt.unwrap())
        };
        assert(payload(start) =~= seq![]) by {
            reveal_with_fuel(payload, 4);
        }
        law_packets_hold_the_data(p, c.body);
        lemma_payload_add(start, packets(p, c.body));
        assert(payload(start) + c.body =~= c.body);
    }
}

/// The bytes of all `data` chunks come out.
proof fn lemma_chunks_payload(p: ParserView, chunks: Seq<Chunk>)
    requires
        p.next_packet + joined(chunks).len() <= u64::MAX,
    ensures
        payload(chunks_out(p, chunks)) == all_data(chunks),
    decreases chunks.len(),
{
    if chunks.len() > 0 {
        let c = chunks[0];
        let q = after_chunk(p, c);
        assert(FMT@[0] != DATA@[0] && DPDS@[1] != DATA@[1]);
        lemma_packet_count(p, c.body);
        lemma_chunk_payload(p, c);
        lemma_chunks_payload(q, chunks.drop_first());
        lemma_payload_add(chunk_out(p, c), chunks_out(q, chunks.drop_first()));
        if c.id != DATA@ {
            assert(Seq::<u8>::empty() + all_data(chunks) =~= all_data(chunks));
        }
    }
}

/// How long a file plays, in nanoseconds, if its chunks tell.
pub open spec fn file_duration(chunks: Seq<Chunk>) -> Option<u64> {
    match (last_fmt(None, chunks), last_index(None, chunks)) {
        (Some(f), Some(b)) => if f.timed() {
            Some(f.nanos(le32(b, b.len() - 4)) as u64)
        } else {
            None
        },
        _ => None,
    }
}

/// A file of whole chunks comes out as the chunks do: the bytes of its `data`
/// chunks, in packets. Nothing is left over, and the demuxer knows format,
/// index and duration.
pub proof fn law_file_comes_out(size: int, chunks: Seq<Chunk>)
    requires
        readable(false, chunks),
        xwma_file(size, chunks).len() <= u64::MAX,
    ensures
        ({
            let r = chained(initial(), xwma_file(size, chunks));
            &&& r.error is None
            &&& r.rest.len() == 0
            &&& r.out == chunks_out(opened(), chunks)
            &&& payload(r.out) == all_data(chunks)
            &&& r.parser == after_chunks(opened(), chunks)
            &&& r.parser.fmt == last_fmt(None, chunks)
            &&& indexed(r.parser, last_index(None, chunks))
            &&& duration(r.parser) == file_duration(chunks)
        }),
{
    let none = Seq::<u8>::empty();
    let p = opened();
    let q = after_chunks(p, chunks);
    let file = xwma_file(size, chunks);
    assert(initial().buffered + file =~= file);
    law_header_is_read(size, joined(chunks));
    assert(joined(chunks) + none =~= joined(chunks));
    law_chunks_are_read(p, chunks, none);
    lemma_run_waits(q, none);
    assert(chunks_out(p, chunks) + Seq::<OutputView>::empty() =~= chunks_out(p, chunks));
    lemma_known(p, None, chunks);
    lemma_chunks_payload(p, chunks);
}

/// No `data` chunk among them holds a packet.
pub open spec fn without_packets(chunks: Seq<Chunk>) -> bool {
    forall|i: int|
        0 <= i < chunks.len() && #[trigger] chunks[i].id == DATA@ ==> chunks[i].body.len() == 0
}

/// The format with which a stream starts: the one that is known at the first
/// `data` chunk; `known` is the one before all of them.
pub open spec fn start_fmt(known: Option<Fmt>, chunks: Seq<Chunk>) -> Option<Fmt>
    decreases chunks.len(),
{
    if chunks.len() == 0 {
        None
    } else if chunks[0].id == DATA@ {
        known
    } else if chunks[0].id == FMT@ {
        start_fmt(Some(fmt_of(chunks[0].body)), chunks.drop_first())
    } else {
        start_fmt(known, chunks.drop_first())
    }
}

/// Chunks without a packet among them may start the stream; nothing else comes
/// out.
pub(crate) proof fn lemma_without_packets(p: ParserView, chunks: Seq<Chunk>)
    requires
        without_packets(chunks),
        readable(p.fmt is Some, chunks),
    ensures
        ({
            let q = after_chunks(p, chunks);
            let f = start_fmt(p.fmt, chunks);
            &&& q.next_packet == p.next_packet
            &&& q.data == p.data
            &&& q.started == (p.started || f is Some)
            &&& chunks_out(p, chunks) == (if !p.started && f is Some {
                start_events(f.unwrap())
            } else {
                seq![]
            })
        }),
    decreases chunks.len(),
{
    if chunks.len() > 0 {
        let c = chunks[0];
        let more = chunks.drop_first();
        let q = after_chunk(p, c);
        assert forall|i: int|
            0 <= i < more.len() && #[trigger] more[i].id == DATA@ implies more[i].body.len() == 0 by {
            assert(chunks[i + 1].id == DATA@);
        }
        assert(FMT@[0] != DATA@[0] && DPDS@[1] != DATA@[1] && FMT@[0] != DPDS@[0]);
        lemma_packet_count(p, c.body);
        lemma_without_packets(q, more);
        if c.id == DATA@ {
            assert(c.body.len() == 0);
            assert(packets(p, c.body) =~= seq![]);
            assert(chunks_out(p, chunks) =~= chunk_out(p, c));
            assert(chunk_out(p, c) =~= (if p.started {
                seq![]
            } else {
                start_events(p.fmt.unwrap())
            }));
        } else {
            assert(chunks_out(p, chunks) =~= chunks_out(q, more));
        }
    }
}

/// Chunks that follow the first packets leave them where they are; those that
/// hold no index leave the index as it is.
pub(crate) proof fn lemma_keeps(p: ParserView, chunks: Seq<Chunk>)
    ensures
        p.data is Some ==> after_chunks(p, chunks).data == p.data,
        last_index(None, chunks) is None ==> {
            let q = after_chunks(p, chunks);
            q.index == p.index && q.dpds_total == p.dpds_total
        },
    decreases chunks.len(),
{
    if chunks.len() > 0 {
        lemma_keeps(after_chunk(p, chunks[0]), chunks.drop_first());
        lemma_last_index(None, chunks.drop_first());
        if chunks[0].is_index() {
            lemma_last_index(Some(chunks[0].body), chunks.drop_first());
        }
    }
}

/// An index that is known stays known.
proof fn lemma_last_index(body: Option<Seq<u8>>, chunks: Seq<Chunk>)
    ensures
        body is Some ==> last_index(body, chunks) is Some,
        last_index(None, chunks) is None ==> last_index(body, chunks) == body,
    decreases chunks.len(),
{
    if chunks.len() > 0 {
        if chunks[0].is_index() {
            lemma_last_index(Some(chunks[0].body), chunks.drop_first());
        }
        lemma_last_index(body, chunks.drop_first());
    }
}

/// The position counts the bytes of the chunks.
pub(crate) proof fn lemma_position(p: ParserView, chunks: Seq<Chunk>)
    ensures
        after_chunks(p, chunks).position == saturating(p.position, joined(chunks).len() as int),
    decreases chunks.len(),
{
    if chunks.len() > 0 {
        lemma_position(after_chunk(p, chunks[0]), chunks.drop_first());
    }
}

} // verus!
